//! The level-of-detail octree. Computed points are inserted top-down into
//! a cube hierarchy; a leaf that would exceed its capacity splits into
//! eight children, redistributing its buffered points by octant. Leaf and
//! representative buffers live in the shared cache, keyed by the node's
//! handle, so peak memory stays bounded by the cache budget. Every branch
//! additionally keeps a down-sampled representative subset of the points
//! routed through it, its sizes scaled by the level-of-detail factor.

use crate::cache::Cache;
use crate::point::{
    POINT_RECORD_SIZE,
    decode_points, encode_point, lemma_points_bytes_len, lemma_points_bytes_push, point_bytes,
    points_bytes, ComputedPoint,
};
use crate::project::{IndexData, IndexNode, Project, Value, MAX_LEAF_SIZE};
use crate::geom::Vec3;
use vstd::multiset::Multiset;
use vstd::prelude::*;

verus! {

/// Largest cube edge a tree may span, in fixed-point units.
pub const MAX_EDGE: i64 = 0x4000_0000_0000;

/// Largest number of points one tree may hold.
pub const MAX_TREE_POINTS: u64 = 0x4_0000_0000_0000;

/// Whether a position lies in the half-open cube at `corner`.
pub open spec fn in_cube(p: Vec3, corner: Vec3, edge: i64) -> bool {
    &&& corner.x <= p.x < corner.x + edge
    &&& corner.y <= p.y < corner.y + edge
    &&& corner.z <= p.z < corner.z + edge
}

pub open spec fn is_pow2(e: int) -> bool
    decreases e,
{
    if e <= 0 {
        false
    } else if e == 1 {
        true
    } else {
        e % 2 == 0 && is_pow2(e / 2)
    }
}

/// A well-formed cube: power-of-two edge, bounded coordinates. The bound
/// on `corner + edge` is closed under taking child cubes.
pub open spec fn cube_wf(corner: Vec3, edge: i64) -> bool {
    &&& 1 <= edge <= MAX_EDGE
    &&& is_pow2(edge as int)
    &&& -MAX_EDGE <= corner.x && corner.x + edge <= MAX_EDGE
    &&& -MAX_EDGE <= corner.y && corner.y + edge <= MAX_EDGE
    &&& -MAX_EDGE <= corner.z && corner.z + edge <= MAX_EDGE
}

/// The octant of a position within a cube: one bit per axis.
pub open spec fn octant(p: Vec3, corner: Vec3, edge: i64) -> int {
    let half = edge as int / 2;
    (if p.x >= corner.x + half {
        1int
    } else {
        0int
    }) + (if p.y >= corner.y + half {
        2int
    } else {
        0int
    }) + (if p.z >= corner.z + half {
        4int
    } else {
        0int
    })
}

/// The corner of child cube `o`.
pub open spec fn child_corner(corner: Vec3, edge: i64, o: int) -> Vec3 {
    let half = edge / 2;
    Vec3 {
        x: if o % 2 == 1 {
            (corner.x + half) as i64
        } else {
            corner.x
        },
        y: if (o / 2) % 2 == 1 {
            (corner.y + half) as i64
        } else {
            corner.y
        },
        z: if o / 4 == 1 {
            (corner.z + half) as i64
        } else {
            corner.z
        },
    }
}

/// A power-of-two edge of at least two is even.
proof fn lemma_pow2_even(e: int)
    requires
        is_pow2(e),
        e >= 2,
    ensures
        e % 2 == 0,
        is_pow2(e / 2),
        e / 2 >= 1,
        e / 2 * 2 == e,
{
}

/// A point of a cube lies in the child cube of its octant.
proof fn lemma_octant_child(p: Vec3, corner: Vec3, edge: i64)
    requires
        cube_wf(corner, edge),
        edge >= 2,
        in_cube(p, corner, edge),
    ensures
        0 <= octant(p, corner, edge) < 8,
        in_cube(p, child_corner(corner, edge, octant(p, corner, edge)), (edge / 2) as i64),
        cube_wf(child_corner(corner, edge, octant(p, corner, edge)), (edge / 2) as i64),
{
    lemma_pow2_even(edge as int);
}

/// Any child cube of a well-formed cube is well formed.
proof fn lemma_child_cube_wf(corner: Vec3, edge: i64, o: int)
    requires
        cube_wf(corner, edge),
        edge >= 2,
        0 <= o < 8,
    ensures
        cube_wf(child_corner(corner, edge, o), (edge / 2) as i64),
{
    lemma_pow2_even(edge as int);
}

/// One node of the octree under construction. Point buffers live in the
/// cache under the node's key; ghost copies state what they hold.
pub enum Node {
    Branch {
        children: Vec<Option<Node>>,
        count: u64,
        rep_key: u64,
        rep_count: u64,
        reps: Ghost<Seq<ComputedPoint>>,
        routed: u64,
    },
    Leaf { key: u64, count: u64, pts: Ghost<Seq<ComputedPoint>> },
}

/// The stored point count of a node.
pub open spec fn count_field(n: Node) -> int {
    match n {
        Node::Branch { count, .. } => count as int,
        Node::Leaf { count, .. } => count as int,
    }
}

/// Ordering tag for termination: a leaf may turn into a branch at the
/// same cube before descending.
pub open spec fn tag_of(n: Node) -> int {
    match n {
        Node::Branch { .. } => 0,
        Node::Leaf { .. } => 1,
    }
}

/// Every cache key a subtree uses.
pub open spec fn keys_set(n: Node) -> Set<u64>
    decreases n,
{
    match n {
        Node::Leaf { key, .. } => set![key],
        Node::Branch { children, rep_key, .. } => keys_children(children@, 8).insert(rep_key),
    }
}

pub open spec fn keys_children(cs: Seq<Option<Node>>, k: int) -> Set<u64>
    decreases cs, k,
{
    if k <= 0 || k > cs.len() {
        Set::empty()
    } else {
        keys_children(cs, k - 1).union(
            match cs[k - 1] {
                Option::None => Set::empty(),
                Option::Some(c) => keys_set(c),
            },
        )
    }
}

/// Total number of points in the leaves of a subtree.
pub open spec fn leaf_points(n: Node) -> int
    decreases n,
{
    match n {
        Node::Leaf { count, .. } => count as int,
        Node::Branch { children, .. } => lp_children(children@, 8),
    }
}

pub open spec fn lp_children(cs: Seq<Option<Node>>, k: int) -> int
    decreases cs, k,
{
    if k <= 0 || k > cs.len() {
        0
    } else {
        lp_children(cs, k - 1) + (match cs[k - 1] {
            Option::None => 0int,
            Option::Some(c) => leaf_points(c),
        })
    }
}

/// Number of nodes of a subtree.
pub open spec fn tree_nodes(n: Node) -> int
    decreases n,
{
    match n {
        Node::Leaf { .. } => 1,
        Node::Branch { children, .. } => 1 + tn_children(children@, 8),
    }
}

pub open spec fn tn_children(cs: Seq<Option<Node>>, k: int) -> int
    decreases cs, k,
{
    if k <= 0 || k > cs.len() {
        0
    } else {
        tn_children(cs, k - 1) + (match cs[k - 1] {
            Option::None => 0int,
            Option::Some(c) => tree_nodes(c),
        })
    }
}

/// All points held by the leaves of a subtree, as a multiset.
pub open spec fn points_mset(n: Node) -> Multiset<ComputedPoint>
    decreases n,
{
    match n {
        Node::Leaf { pts, .. } => pts@.to_multiset(),
        Node::Branch { children, .. } => msets_children(children@, 8),
    }
}

pub open spec fn msets_children(cs: Seq<Option<Node>>, k: int) -> Multiset<ComputedPoint>
    decreases cs, k,
{
    if k <= 0 || k > cs.len() {
        Multiset::empty()
    } else {
        msets_children(cs, k - 1).add(
            match cs[k - 1] {
                Option::None => Multiset::empty(),
                Option::Some(c) => points_mset(c),
            },
        )
    }
}

/// Sum of the stored counts of a child list.
pub open spec fn sum_counts(cs: Seq<Option<Node>>, k: int) -> int
    decreases k,
{
    if k <= 0 || k > cs.len() {
        0
    } else {
        sum_counts(cs, k - 1) + (match cs[k - 1] {
            Option::None => 0int,
            Option::Some(c) => count_field(c),
        })
    }
}

/// Structural invariant of a subtree against the cache contents: buffers
/// hold exactly the ghost points, leaves respect the capacity, points lie
/// in their cubes, counts agree with the children, and the key sets of
/// distinct children are disjoint.
pub open spec fn wf_node(n: Node, cm: Map<u64, Seq<u8>>, corner: Vec3, edge: i64) -> bool
    decreases n,
{
    match n {
        Node::Leaf { key, count, pts } => {
            &&& cm.contains_key(key)
            &&& cm[key] == points_bytes(pts@)
            &&& count as int == pts@.len()
            &&& (edge >= 2 ==> count <= MAX_LEAF_SIZE as u64)
            &&& forall|i: int|
                0 <= i < pts@.len() ==> (#[trigger] pts@[i]).wf() && in_cube(
                    pts@[i].position,
                    corner,
                    edge,
                )
        },
        Node::Branch { children, count, rep_key, rep_count, reps, routed } => {
            &&& edge >= 2
            &&& children@.len() == 8
            &&& cm.contains_key(rep_key)
            &&& cm[rep_key] == points_bytes(reps@)
            &&& rep_count as int == reps@.len()
            &&& rep_count <= count
            &&& routed == count
            &&& forall|i: int| 0 <= i < reps@.len() ==> (#[trigger] reps@[i]).wf()
            &&& count as int == sum_counts(children@, 8)
            &&& (forall|o1: int, o2: int|
                0 <= o1 < o2 < 8 ==> child_keys(children@, o1).disjoint(child_keys(children@, o2)))
            &&& (forall|o: int| 0 <= o < 8 ==> !(#[trigger] child_keys(children@, o)).contains(rep_key))
            &&& wf_children(children@, 8, cm, corner, edge)
        },
    }
}

/// The keys of one child slot.
pub open spec fn child_keys(cs: Seq<Option<Node>>, o: int) -> Set<u64> {
    match cs[o] {
        Option::None => Set::empty(),
        Option::Some(c) => keys_set(c),
    }
}

pub open spec fn wf_children(
    cs: Seq<Option<Node>>,
    k: int,
    cm: Map<u64, Seq<u8>>,
    corner: Vec3,
    edge: i64,
) -> bool
    decreases cs, k,
{
    if k <= 0 || k > cs.len() {
        true
    } else {
        wf_children(cs, k - 1, cm, corner, edge) && (match cs[k - 1] {
            Option::None => true,
            Option::Some(c) => wf_node(c, cm, child_corner(corner, edge, k - 1), (edge / 2) as i64),
        })
    }
}

/// All keys of a subtree lie below `hi`.
pub open spec fn keys_below(n: Node, hi: u64) -> bool {
    forall|k: u64| keys_set(n).contains(k) ==> k < hi
}


/// Every key a well-formed subtree uses is present in the cache contents.
proof fn lemma_keys_contained(n: Node, cm: Map<u64, Seq<u8>>, corner: Vec3, edge: i64, key: u64)
    requires
        wf_node(n, cm, corner, edge),
        keys_set(n).contains(key),
    ensures
        cm.contains_key(key),
    decreases n,
{
    match n {
        Node::Leaf { .. } => {},
        Node::Branch { children, rep_key, .. } => {
            if key != rep_key {
                lemma_keys_contained_children(children@, 8, cm, corner, edge, key);
            }
        },
    }
}

proof fn lemma_keys_contained_children(
    cs: Seq<Option<Node>>,
    k: int,
    cm: Map<u64, Seq<u8>>,
    corner: Vec3,
    edge: i64,
    key: u64,
)
    requires
        k <= cs.len() <= 8,
        wf_children(cs, k, cm, corner, edge),
        keys_children(cs, k).contains(key),
    ensures
        cm.contains_key(key),
    decreases cs, k,
{
    if k > 0 {
        if keys_children(cs, k - 1).contains(key) {
            lemma_keys_contained_children(cs, k - 1, cm, corner, edge, key);
        } else {
            match cs[k - 1] {
                Option::None => {},
                Option::Some(c) => {
                    lemma_keys_contained(
                        c,
                        cm,
                        child_corner(corner, edge, k - 1),
                        (edge / 2) as i64,
                        key,
                    );
                },
            }
        }
    }
}

/// A subtree's well-formedness depends only on the cache values of its
/// own keys.
proof fn lemma_wf_stable(
    n: Node,
    cm1: Map<u64, Seq<u8>>,
    cm2: Map<u64, Seq<u8>>,
    corner: Vec3,
    edge: i64,
)
    requires
        wf_node(n, cm1, corner, edge),
        forall|k: u64|
            #[trigger] keys_set(n).contains(k) ==> cm2.contains_key(k) && cm2[k] == cm1[k],
    ensures
        wf_node(n, cm2, corner, edge),
    decreases n,
{
    match n {
        Node::Leaf { key, .. } => {
            assert(keys_set(n).contains(key));
        },
        Node::Branch { children, rep_key, .. } => {
            assert(keys_set(n).contains(rep_key));
            assert forall|key: u64| #[trigger] keys_children(children@, 8).contains(key)
                implies cm2.contains_key(key) && cm2[key] == cm1[key] by {
                assert(keys_set(n).contains(key)) by {
                    assert(keys_set(n) == keys_children(children@, 8).insert(rep_key));
                }
            }
            lemma_wf_stable_children(children@, 8, cm1, cm2, corner, edge);
        },
    }
}

proof fn lemma_wf_stable_children(
    cs: Seq<Option<Node>>,
    k: int,
    cm1: Map<u64, Seq<u8>>,
    cm2: Map<u64, Seq<u8>>,
    corner: Vec3,
    edge: i64,
)
    requires
        k <= cs.len() <= 8,
        wf_children(cs, k, cm1, corner, edge),
        forall|key: u64|
            #[trigger] keys_children(cs, k).contains(key) ==> cm2.contains_key(key) && cm2[key]
                == cm1[key],
    ensures
        wf_children(cs, k, cm2, corner, edge),
    decreases cs, k,
{
    if 0 < k {
        assert forall|key: u64| #[trigger] keys_children(cs, k - 1).contains(key)
            implies cm2.contains_key(key) && cm2[key] == cm1[key] by {
            assert(keys_children(cs, k).contains(key));
        }
        lemma_wf_stable_children(cs, k - 1, cm1, cm2, corner, edge);
        match cs[k - 1] {
            Option::None => {},
            Option::Some(c) => {
                assert forall|key: u64| #[trigger] keys_set(c).contains(key)
                    implies cm2.contains_key(key) && cm2[key] == cm1[key] by {
                    assert(keys_children(cs, k).contains(key));
                }
                lemma_wf_stable(c, cm1, cm2, child_corner(corner, edge, k - 1), (edge / 2) as i64);
            },
        }
    }
}

/// A child's keys are among the keys of the child list.
proof fn lemma_keys_children_member(cs: Seq<Option<Node>>, o: int, k: int)
    requires
        0 <= o < k <= cs.len(),
    ensures
        child_keys(cs, o).subset_of(keys_children(cs, k)),
    decreases k - o,
{
    lemma_keys_children_prefix(cs, o + 1, k);
}

/// Keys of a prefix of the child list are among those of a longer prefix.
proof fn lemma_keys_children_prefix(cs: Seq<Option<Node>>, k1: int, k2: int)
    requires
        0 < k1 <= k2 <= cs.len(),
    ensures
        child_keys(cs, k1 - 1).subset_of(keys_children(cs, k2)),
        keys_children(cs, k1).subset_of(keys_children(cs, k2)),
    decreases k2 - k1,
{
    assert(child_keys(cs, k1 - 1).subset_of(keys_children(cs, k1))) by {
        match cs[k1 - 1] {
            Option::None => {},
            Option::Some(c) => {
                assert(keys_children(cs, k1) == keys_children(cs, k1 - 1).union(keys_set(c)));
            },
        }
    }
    if k1 < k2 {
        lemma_keys_children_prefix(cs, k1 + 1, k2);
        assert(keys_children(cs, k1).subset_of(keys_children(cs, k1 + 1))) by {
            match cs[k1] {
                Option::None => {
                    assert(keys_children(cs, k1 + 1) == keys_children(cs, k1).union(
                        Set::<u64>::empty(),
                    ));
                },
                Option::Some(c) => {
                    assert(keys_children(cs, k1 + 1) == keys_children(cs, k1).union(keys_set(c)));
                },
            }
        }
    }
}

/// The stored count of a well-formed subtree equals the total point count
/// of its leaves: what a branch counts is exactly the union of the leaf
/// buffers beneath it.
pub proof fn lemma_count_is_leaf_sum(n: Node, cm: Map<u64, Seq<u8>>, corner: Vec3, edge: i64)
    requires
        wf_node(n, cm, corner, edge),
    ensures
        count_field(n) == leaf_points(n),
    decreases n,
{
    match n {
        Node::Leaf { .. } => {},
        Node::Branch { children, .. } => {
            lemma_count_is_leaf_sum_children(children@, 8, cm, corner, edge);
        },
    }
}

proof fn lemma_count_is_leaf_sum_children(
    cs: Seq<Option<Node>>,
    k: int,
    cm: Map<u64, Seq<u8>>,
    corner: Vec3,
    edge: i64,
)
    requires
        cs.len() == 8,
        k <= 8,
        wf_children(cs, k, cm, corner, edge),
    ensures
        sum_counts(cs, k) == lp_children(cs, k),
    decreases cs, k,
{
    if 0 < k <= 8 {
        lemma_count_is_leaf_sum_children(cs, k - 1, cm, corner, edge);
        match cs[k - 1] {
            Option::None => {},
            Option::Some(c) => {
                lemma_count_is_leaf_sum(c, cm, child_corner(corner, edge, k - 1), (edge / 2) as i64);
            },
        }
    }
}

/// Every leaf of a well-formed tree holds at most the leaf capacity, as
/// long as its cube can still split.
pub proof fn lemma_leaf_capacity(n: Node, cm: Map<u64, Seq<u8>>, corner: Vec3, edge: i64)
    requires
        wf_node(n, cm, corner, edge),
        edge >= 2,
    ensures
        n matches Node::Leaf { count, .. } ==> count <= MAX_LEAF_SIZE as u64,
{
}

/// In the flattened container of a well-formed tree, no leaf whose cube
/// can still subdivide holds more points than the leaf capacity. Only a
/// cell already at the minimal edge may exceed it, when more points than
/// the capacity share that one cell.
pub proof fn lemma_flat_leaf_capacity(
    n: Node,
    cm: Map<u64, Seq<u8>>,
    corner: Vec3,
    edge: i64,
    base: int,
)
    requires
        wf_node(n, cm, corner, edge),
    ensures
        forall|i: int|
            0 <= i < flat_of(n, corner, edge, base).len() && (#[trigger] flat_of(
                n,
                corner,
                edge,
                base,
            )[i]).is_leaf && flat_of(n, corner, edge, base)[i].edge >= 2 ==> flat_of(
                n,
                corner,
                edge,
                base,
            )[i].pts.len() <= MAX_LEAF_SIZE,
    decreases n,
{
    match n {
        Node::Leaf { .. } => {},
        Node::Branch { children, .. } => {
            lemma_flat_leaf_capacity_children(children@, 8, cm, corner, edge, base);
            let cs = flat_children(children@, 8, corner, edge, base);
            assert forall|i: int|
                0 <= i < flat_of(n, corner, edge, base).len() && (#[trigger] flat_of(
                    n,
                    corner,
                    edge,
                    base,
                )[i]).is_leaf && flat_of(n, corner, edge, base)[i].edge >= 2 implies flat_of(
                n,
                corner,
                edge,
                base,
            )[i].pts.len() <= MAX_LEAF_SIZE by {
                if i < cs.len() {
                    assert(flat_of(n, corner, edge, base)[i] == cs[i]);
                }
            }
        },
    }
}

proof fn lemma_flat_leaf_capacity_children(
    cs: Seq<Option<Node>>,
    k: int,
    cm: Map<u64, Seq<u8>>,
    corner: Vec3,
    edge: i64,
    base: int,
)
    requires
        k <= cs.len() <= 8,
        wf_children(cs, k, cm, corner, edge),
    ensures
        forall|i: int|
            0 <= i < flat_children(cs, k, corner, edge, base).len() && (#[trigger] flat_children(
                cs,
                k,
                corner,
                edge,
                base,
            )[i]).is_leaf && flat_children(cs, k, corner, edge, base)[i].edge >= 2
                ==> flat_children(cs, k, corner, edge, base)[i].pts.len() <= MAX_LEAF_SIZE,
    decreases cs, k,
{
    if k > 0 {
        lemma_flat_leaf_capacity_children(cs, k - 1, cm, corner, edge, base);
        let pre = flat_children(cs, k - 1, corner, edge, base);
        let whole = flat_children(cs, k, corner, edge, base);
        match cs[k - 1] {
            Option::None => {
                assert(whole =~= pre);
            },
            Option::Some(c) => {
                lemma_flat_leaf_capacity(
                    c,
                    cm,
                    child_corner(corner, edge, k - 1),
                    (edge / 2) as i64,
                    base + pre.len(),
                );
                let sub = flat_of(
                    c,
                    child_corner(corner, edge, k - 1),
                    (edge / 2) as i64,
                    base + pre.len(),
                );
                assert forall|i: int|
                    0 <= i < whole.len() && (#[trigger] whole[i]).is_leaf && whole[i].edge >= 2
                    implies whole[i].pts.len() <= MAX_LEAF_SIZE by {
                    if i < pre.len() {
                        assert(whole[i] == pre[i]);
                    } else {
                        assert(whole[i] == sub[i - pre.len()]);
                    }
                }
            },
        }
    }
}


/// The points of one octant of a list, in order.
pub open spec fn oct_filter(s: Seq<ComputedPoint>, corner: Vec3, edge: i64, o: int) -> Seq<
    ComputedPoint,
>
    decreases s.len(),
{
    if s.len() == 0 {
        Seq::empty()
    } else {
        oct_filter(s.drop_last(), corner, edge, o) + if octant(s.last().position, corner, edge)
            == o {
            seq![s.last()]
        } else {
            Seq::empty()
        }
    }
}

/// The eight octant buckets of a cube partition its points.
proof fn lemma_oct_filter_total(s: Seq<ComputedPoint>, corner: Vec3, edge: i64)
    requires
        cube_wf(corner, edge),
        edge >= 2,
        forall|i: int| 0 <= i < s.len() ==> in_cube((#[trigger] s[i]).position, corner, edge),
    ensures
        oct_filter(s, corner, edge, 0).len() + oct_filter(s, corner, edge, 1).len() + oct_filter(
            s,
            corner,
            edge,
            2,
        ).len() + oct_filter(s, corner, edge, 3).len() + oct_filter(s, corner, edge, 4).len()
            + oct_filter(s, corner, edge, 5).len() + oct_filter(s, corner, edge, 6).len()
            + oct_filter(s, corner, edge, 7).len() == s.len(),
    decreases s.len(),
{
    if s.len() > 0 {
        lemma_oct_filter_total(s.drop_last(), corner, edge);
        lemma_octant_child(s.last().position, corner, edge);
        let o = octant(s.last().position, corner, edge);
        assert(oct_filter(s, corner, edge, o).len() == oct_filter(
            s.drop_last(),
            corner,
            edge,
            o,
        ).len() + 1);
        assert forall|b: int| 0 <= b < 8 && b != o implies oct_filter(s, corner, edge, b).len()
            == oct_filter(s.drop_last(), corner, edge, b).len() by {
            assert(oct_filter(s, corner, edge, b) == oct_filter(s.drop_last(), corner, edge, b)
                + Seq::<ComputedPoint>::empty());
        }
        assert(oct_filter(s, corner, edge, 0).len() == oct_filter(s.drop_last(), corner, edge, 0).len() + if o == 0 { 1int } else { 0int });
        assert(oct_filter(s, corner, edge, 1).len() == oct_filter(s.drop_last(), corner, edge, 1).len() + if o == 1 { 1int } else { 0int });
        assert(oct_filter(s, corner, edge, 2).len() == oct_filter(s.drop_last(), corner, edge, 2).len() + if o == 2 { 1int } else { 0int });
        assert(oct_filter(s, corner, edge, 3).len() == oct_filter(s.drop_last(), corner, edge, 3).len() + if o == 3 { 1int } else { 0int });
        assert(oct_filter(s, corner, edge, 4).len() == oct_filter(s.drop_last(), corner, edge, 4).len() + if o == 4 { 1int } else { 0int });
        assert(oct_filter(s, corner, edge, 5).len() == oct_filter(s.drop_last(), corner, edge, 5).len() + if o == 5 { 1int } else { 0int });
        assert(oct_filter(s, corner, edge, 6).len() == oct_filter(s.drop_last(), corner, edge, 6).len() + if o == 6 { 1int } else { 0int });
        assert(oct_filter(s, corner, edge, 7).len() == oct_filter(s.drop_last(), corner, edge, 7).len() + if o == 7 { 1int } else { 0int });
    }
}

/// Octant bucket members are well formed and lie in the child cube.
proof fn lemma_oct_filter_elems(s: Seq<ComputedPoint>, corner: Vec3, edge: i64, o: int)
    requires
        cube_wf(corner, edge),
        edge >= 2,
        0 <= o < 8,
        forall|i: int|
            0 <= i < s.len() ==> (#[trigger] s[i]).wf() && in_cube(s[i].position, corner, edge),
    ensures
        forall|j: int|
            0 <= j < oct_filter(s, corner, edge, o).len() ==> (#[trigger] oct_filter(
                s,
                corner,
                edge,
                o,
            )[j]).wf() && in_cube(
                oct_filter(s, corner, edge, o)[j].position,
                child_corner(corner, edge, o),
                (edge / 2) as i64,
            ),
    decreases s.len(),
{
    if s.len() > 0 {
        lemma_oct_filter_elems(s.drop_last(), corner, edge, o);
        let f0 = oct_filter(s.drop_last(), corner, edge, o);
        let f = oct_filter(s, corner, edge, o);
        if octant(s.last().position, corner, edge) == o {
            lemma_octant_child(s.last().position, corner, edge);
            assert(f == f0 + seq![s.last()]);
        } else {
            assert(f =~= f0);
        }
        assert forall|j: int| 0 <= j < f.len() implies (#[trigger] f[j]).wf() && in_cube(
            f[j].position,
            child_corner(corner, edge, o),
            (edge / 2) as i64,
        ) by {
            if j < f0.len() {
                assert(f[j] == f0[j]);
            } else {
                assert(f[j] == s.last());
            }
        }
    }
}

/// Each child's stored count is at most the whole list's sum.
proof fn lemma_sum_counts_bound(cs: Seq<Option<Node>>, k: int, o: int)
    requires
        cs.len() == 8,
        0 <= o < k <= 8,
    ensures
        (match cs[o] {
            Option::None => 0int,
            Option::Some(c) => count_field(c),
        }) <= sum_counts(cs, k),
        sum_counts(cs, k) >= 0,
    decreases k,
{
    if o < k - 1 {
        lemma_sum_counts_bound(cs, k - 1, o);
    } else {
        lemma_sum_counts_nonneg(cs, k - 1);
    }
}

proof fn lemma_sum_counts_nonneg(cs: Seq<Option<Node>>, k: int)
    requires
        cs.len() == 8,
        k <= 8,
    ensures
        sum_counts(cs, k) >= 0,
    decreases k,
{
    if k > 0 {
        lemma_sum_counts_nonneg(cs, k - 1);
    }
}

/// Updating one child changes the stored-count sum by the difference.
proof fn lemma_sum_counts_update(cs: Seq<Option<Node>>, k: int, o: int, x: Option<Node>)
    requires
        cs.len() == 8,
        0 <= o < 8,
        k <= 8,
    ensures
        sum_counts(cs.update(o, x), k) == sum_counts(cs, k) + (if o < k {
            (match x {
                Option::None => 0int,
                Option::Some(c) => count_field(c),
            }) - (match cs[o] {
                Option::None => 0int,
                Option::Some(c) => count_field(c),
            })
        } else {
            0int
        }),
        lp_children(cs.update(o, x), k) == lp_children(cs, k) + (if o < k {
            (match x {
                Option::None => 0int,
                Option::Some(c) => leaf_points(c),
            }) - (match cs[o] {
                Option::None => 0int,
                Option::Some(c) => leaf_points(c),
            })
        } else {
            0int
        }),
        tn_children(cs.update(o, x), k) == tn_children(cs, k) + (if o < k {
            (match x {
                Option::None => 0int,
                Option::Some(c) => tree_nodes(c),
            }) - (match cs[o] {
                Option::None => 0int,
                Option::Some(c) => tree_nodes(c),
            })
        } else {
            0int
        }),
        o < k ==> msets_children(cs.update(o, x), k).add(
            match cs[o] {
                Option::None => Multiset::empty(),
                Option::Some(c) => points_mset(c),
            },
        ) == msets_children(cs, k).add(
            match x {
                Option::None => Multiset::empty(),
                Option::Some(c) => points_mset(c),
            },
        ),
        !(o < k) ==> msets_children(cs.update(o, x), k) == msets_children(cs, k),
    decreases k,
{
    broadcast use vstd::multiset::group_multiset_axioms;

    if k > 0 {
        lemma_sum_counts_update(cs, k - 1, o, x);
        let upd = cs.update(o, x);
        let oldm = match cs[o] {
            Option::None => Multiset::<ComputedPoint>::empty(),
            Option::Some(c) => points_mset(c),
        };
        let newm = match x {
            Option::None => Multiset::<ComputedPoint>::empty(),
            Option::Some(c) => points_mset(c),
        };
        if o < k {
            if o == k - 1 {
                assert(msets_children(upd, k - 1) == msets_children(cs, k - 1));
                assert(upd[k - 1] == x);
                assert(msets_children(upd, k) == msets_children(cs, k - 1).add(newm));
                assert(msets_children(cs, k) == msets_children(cs, k - 1).add(oldm));
                assert forall|v: ComputedPoint| msets_children(upd, k).add(oldm).count(v)
                    == msets_children(cs, k).add(newm).count(v) by {}
                assert(msets_children(upd, k).add(oldm) =~= msets_children(cs, k).add(newm));
            } else {
                assert(upd[k - 1] == cs[k - 1]);
                let t = match cs[k - 1] {
                    Option::None => Multiset::<ComputedPoint>::empty(),
                    Option::Some(c) => points_mset(c),
                };
                assert(msets_children(upd, k) == msets_children(upd, k - 1).add(t));
                assert(msets_children(cs, k) == msets_children(cs, k - 1).add(t));
                assert forall|v: ComputedPoint| msets_children(upd, k).add(oldm).count(v)
                    == msets_children(cs, k).add(newm).count(v) by {
                    assert(msets_children(upd, k - 1).add(oldm).count(v) == msets_children(
                        cs,
                        k - 1,
                    ).add(newm).count(v));
                }
                assert(msets_children(upd, k).add(oldm) =~= msets_children(cs, k).add(newm));
            }
        }
    }
}

/// Updating one child bounds the keys of the list by the old keys and the
/// new child's keys, and keeps every old key of other children.
proof fn lemma_keys_children_update(cs: Seq<Option<Node>>, k: int, o: int, x: Option<Node>)
    requires
        cs.len() == 8,
        0 <= o < 8,
        k <= 8,
    ensures
        forall|key: u64|
            #[trigger] keys_children(cs.update(o, x), k).contains(key) ==> keys_children(
                cs,
                k,
            ).contains(key) || (match x {
                Option::None => false,
                Option::Some(c) => keys_set(c).contains(key),
            }),
        forall|key: u64|
            #[trigger] keys_children(cs, k).contains(key) && !child_keys(cs, o).contains(key)
                ==> keys_children(cs.update(o, x), k).contains(key),
    decreases k,
{
    let upd = cs.update(o, x);
    if k > 0 {
        lemma_keys_children_update(cs, k - 1, o, x);
        assert forall|key: u64| #[trigger] keys_children(upd, k).contains(key)
            implies keys_children(cs, k).contains(key) || (match x {
            Option::None => false,
            Option::Some(c) => keys_set(c).contains(key),
        }) by {
            if !keys_children(upd, k - 1).contains(key) {
                if k - 1 == o {
                } else {
                    assert(upd[k - 1] == cs[k - 1]);
                }
            }
        }
        assert forall|key: u64|
            #[trigger] keys_children(cs, k).contains(key) && !child_keys(cs, o).contains(key)
            implies keys_children(upd, k).contains(key) by {
            if !keys_children(cs, k - 1).contains(key) {
                if k - 1 == o {
                    assert(child_keys(cs, o).contains(key));
                } else {
                    assert(upd[k - 1] == cs[k - 1]);
                }
            }
        }
    }
}

/// Rebuilding a child list with one slot replaced preserves the others'
/// well-formedness, as long as the cache agrees on their keys.
proof fn lemma_wf_children_update(
    cs: Seq<Option<Node>>,
    k: int,
    cm1: Map<u64, Seq<u8>>,
    cm2: Map<u64, Seq<u8>>,
    corner: Vec3,
    edge: i64,
    o: int,
    x: Option<Node>,
)
    requires
        cs.len() == 8,
        k <= 8,
        0 <= o < 8,
        wf_children(cs, k, cm1, corner, edge),
        (match x {
            Option::None => true,
            Option::Some(c2) => wf_node(c2, cm2, child_corner(corner, edge, o), (edge / 2) as i64),
        }),
        forall|key: u64|
            #[trigger] keys_children(cs, 8).contains(key) && !child_keys(cs, o).contains(key)
                ==> cm2.contains_key(key) && cm2[key] == cm1[key],
        forall|o1: int, o2: int|
            0 <= o1 < o2 < 8 ==> child_keys(cs, o1).disjoint(child_keys(cs, o2)),
    ensures
        wf_children(cs.update(o, x), k, cm2, corner, edge),
    decreases k,
{
    let upd = cs.update(o, x);
    if k > 0 {
        lemma_wf_children_update(cs, k - 1, cm1, cm2, corner, edge, o, x);
        if k - 1 == o {
        } else {
            match cs[k - 1] {
                Option::None => {},
                Option::Some(c) => {
                    lemma_keys_children_member(cs, k - 1, 8);
                    assert forall|key: u64| #[trigger] keys_set(c).contains(key)
                        implies cm2.contains_key(key) && cm2[key] == cm1[key] by {
                        assert(child_keys(cs, k - 1).contains(key));
                        assert(keys_children(cs, 8).contains(key));
                        if o < k - 1 || o > k - 1 {
                            if child_keys(cs, o).contains(key) {
                                if o < k - 1 {
                                    assert(child_keys(cs, o).disjoint(child_keys(cs, k - 1)));
                                } else {
                                    assert(child_keys(cs, k - 1).disjoint(child_keys(cs, o)));
                                }
                            }
                        }
                    }
                    lemma_wf_stable(c, cm1, cm2, child_corner(corner, edge, k - 1), (edge / 2) as i64);
                },
            }
        }
    }
}

/// Encodes a point list into its packed cache records.
fn encode_points(pts: &Vec<ComputedPoint>) -> (r: Vec<u8>)
    ensures
        r@ == points_bytes(pts@),
{
    let n: usize = pts.len();
    let mut r: Vec<u8> = Vec::new();
    let mut i: usize = 0;
    while i < n
        invariant
            i <= n,
            n == pts@.len(),
            r@ == points_bytes(pts@.take(i as int)),
        decreases n - i,
    {
        proof {
            lemma_points_bytes_push(pts@.take(i as int), pts@[i as int]);
            assert(pts@.take(i as int).push(pts@[i as int]) =~= pts@.take(i as int + 1));
        }
        encode_point(&mut r, &pts[i]);
        i = i + 1;
    }
    proof {
        assert(pts@.take(n as int) =~= pts@);
    }
    r
}


/// Each key of a child list belongs to some child slot.
proof fn lemma_keys_children_elem(cs: Seq<Option<Node>>, k: int, key: u64)
    requires
        cs.len() == 8,
        k <= 8,
        keys_children(cs, k).contains(key),
    ensures
        exists|o: int| 0 <= o < k && (#[trigger] child_keys(cs, o)).contains(key),
    decreases k,
{
    if k > 0 {
        if keys_children(cs, k - 1).contains(key) {
            lemma_keys_children_elem(cs, k - 1, key);
        } else {
            assert(child_keys(cs, k - 1).contains(key));
        }
    }
}

/// Every present child of a well-formed child list is well formed.
proof fn lemma_wf_children_index(
    cs: Seq<Option<Node>>,
    k: int,
    cm: Map<u64, Seq<u8>>,
    corner: Vec3,
    edge: i64,
    o: int,
)
    requires
        cs.len() == 8,
        0 <= o < k <= 8,
        wf_children(cs, k, cm, corner, edge),
    ensures
        (match cs[o] {
            Option::None => true,
            Option::Some(c) => wf_node(c, cm, child_corner(corner, edge, o), (edge / 2) as i64),
        }),
    decreases k,
{
    if o < k - 1 {
        lemma_wf_children_index(cs, k - 1, cm, corner, edge, o);
    }
}

/// The size of a representative point: the point size under the
/// level-of-detail scale, at least one unit.
pub open spec fn rep_size(size: int, scale: int) -> int {
    let v = size * scale / 1000;
    if v < 1 {
        1
    } else {
        v
    }
}

/// Scales a point size by the level-of-detail factor in thousandths.
fn scale_size(size: i64, scale: u32) -> (r: i64)
    requires
        1 <= size,
        scale <= 1000,
    ensures
        r as int == rep_size(size as int, scale as int),
        1 <= r <= size,
{
    proof {
        assert(0 <= (size as int) * (scale as int) <= (size as int) * 1000) by (nonlinear_arith)
            requires 1 <= size, 0 <= scale <= 1000;
        vstd::arithmetic::div_mod::lemma_div_is_ordered(
            (size as int) * (scale as int),
            (size as int) * 1000,
            1000,
        );
        vstd::arithmetic::div_mod::lemma_div_multiples_vanish(size as int, 1000);
        assert((size as int) * 1000 == 1000 * (size as int)) by (nonlinear_arith);
        vstd::arithmetic::div_mod::lemma_div_pos_is_pos((size as int) * (scale as int), 1000);
    }
    let v: i64 = ((size as i128 * scale as i128) / 1000) as i64;
    if v < 1 {
        1
    } else {
        v
    }
}

/// The octant of a position, executable.
fn octant_exec(p: Vec3, corner: Vec3, edge: i64) -> (o: usize)
    requires
        cube_wf(corner, edge),
        edge >= 2,
        in_cube(p, corner, edge),
    ensures
        o as int == octant(p, corner, edge),
        o < 8,
{
    let half: i64 = edge / 2;
    let mut o: usize = 0;
    if p.x >= corner.x + half {
        o = o + 1;
    }
    if p.y >= corner.y + half {
        o = o + 2;
    }
    if p.z >= corner.z + half {
        o = o + 4;
    }
    o
}

/// The corner of a child cube, executable.
fn child_corner_exec(corner: Vec3, edge: i64, o: usize) -> (r: Vec3)
    requires
        cube_wf(corner, edge),
        edge >= 2,
        o < 8,
    ensures
        r == child_corner(corner, edge, o as int),
{
    let half: i64 = edge / 2;
    let x: i64 = if o % 2 == 1 {
        corner.x + half
    } else {
        corner.x
    };
    let y: i64 = if (o / 2) % 2 == 1 {
        corner.y + half
    } else {
        corner.y
    };
    let z: i64 = if o / 4 == 1 {
        corner.z + half
    } else {
        corner.z
    };
    Vec3 { x, y, z }
}

/// Builds the leaf of one octant bucket, storing its records in the cache
/// under a fresh key; an empty bucket yields no child.
fn make_child(bucket: Vec<ComputedPoint>, cache: &mut Cache, next_key: &mut u64) -> (r: Option<
    Node,
>)
    requires
        old(cache).wf(),
        *old(next_key) < 0xffff_ffff_ffff_ffff,
        bucket@.len() <= MAX_LEAF_SIZE,
    ensures
        final(cache).wf(),
        final(cache).spec_budget() == old(cache).spec_budget(),
        bucket@.len() == 0 ==> r is None && final(cache)@ == old(cache)@ && *final(next_key)
            == *old(next_key),
        bucket@.len() > 0 ==> (r matches Option::Some(Node::Leaf { key, count, pts }) && key
            == *old(next_key) && count as int == bucket@.len() && pts@ == bucket@
            && final(cache)@.contains_key(*old(next_key)) && final(cache)@[*old(next_key)]
            == points_bytes(bucket@) && *final(next_key) == *old(next_key) + 1),
        forall|k: u64|
            k != *old(next_key) ==> (#[trigger] final(cache)@.contains_key(k)) == old(cache)@.contains_key(
                k,
            ) && (old(cache)@.contains_key(k) ==> final(cache)@[k] == old(cache)@[k]),
{
    if bucket.len() == 0 {
        None
    } else {
        let nk: u64 = *next_key;
        *next_key = nk + 1;
        cache.clear(nk);
        let buf = encode_points(&bucket);
        proof {
            lemma_points_bytes_len(bucket@);
        }
        cache.append(nk, &buf);
        proof {
            assert(cache@ =~= old(cache)@.insert(nk, points_bytes(bucket@)));
        }
        Some(Node::Leaf { key: nk, count: bucket.len() as u64, pts: Ghost(bucket@) })
    }
}




/// Routes a point list into its eight octant buckets.
fn route_buckets(items: Vec<ComputedPoint>, corner: Vec3, edge: i64) -> (r: (
    Vec<ComputedPoint>,
    Vec<ComputedPoint>,
    Vec<ComputedPoint>,
    Vec<ComputedPoint>,
    Vec<ComputedPoint>,
    Vec<ComputedPoint>,
    Vec<ComputedPoint>,
    Vec<ComputedPoint>,
))
    requires
        cube_wf(corner, edge),
        edge >= 2,
        forall|i: int| 0 <= i < items@.len() ==> in_cube((#[trigger] items@[i]).position, corner, edge),
    ensures
        r.0@ == oct_filter(items@, corner, edge, 0),
        r.1@ == oct_filter(items@, corner, edge, 1),
        r.2@ == oct_filter(items@, corner, edge, 2),
        r.3@ == oct_filter(items@, corner, edge, 3),
        r.4@ == oct_filter(items@, corner, edge, 4),
        r.5@ == oct_filter(items@, corner, edge, 5),
        r.6@ == oct_filter(items@, corner, edge, 6),
        r.7@ == oct_filter(items@, corner, edge, 7),
{
    let n_items: usize = items.len();
    let mut b0: Vec<ComputedPoint> = Vec::new();
    let mut b1: Vec<ComputedPoint> = Vec::new();
    let mut b2: Vec<ComputedPoint> = Vec::new();
    let mut b3: Vec<ComputedPoint> = Vec::new();
    let mut b4: Vec<ComputedPoint> = Vec::new();
    let mut b5: Vec<ComputedPoint> = Vec::new();
    let mut b6: Vec<ComputedPoint> = Vec::new();
    let mut b7: Vec<ComputedPoint> = Vec::new();
    let mut j: usize = 0;
    while j < n_items
        invariant
            j <= n_items,
            n_items == items@.len(),
            cube_wf(corner, edge),
            edge >= 2,
            forall|i: int|
                0 <= i < items@.len() ==> in_cube((#[trigger] items@[i]).position, corner, edge),
            b0@ == oct_filter(items@.take(j as int), corner, edge, 0),
            b1@ == oct_filter(items@.take(j as int), corner, edge, 1),
            b2@ == oct_filter(items@.take(j as int), corner, edge, 2),
            b3@ == oct_filter(items@.take(j as int), corner, edge, 3),
            b4@ == oct_filter(items@.take(j as int), corner, edge, 4),
            b5@ == oct_filter(items@.take(j as int), corner, edge, 5),
            b6@ == oct_filter(items@.take(j as int), corner, edge, 6),
            b7@ == oct_filter(items@.take(j as int), corner, edge, 7),
        decreases n_items - j,
    {
        let it: ComputedPoint = items[j];
        proof {
            assert(items@.take(j as int + 1).drop_last() =~= items@.take(j as int));
            assert(items@.take(j as int + 1).last() == items@[j as int]);
            lemma_octant_child(it.position, corner, edge);
            let oo = octant(it.position, corner, edge);
            assert forall|b: int| 0 <= b < 8 && b != oo implies oct_filter(
                items@.take(j as int + 1),
                corner,
                edge,
                b,
            ) == oct_filter(items@.take(j as int), corner, edge, b) by {
                assert(oct_filter(items@.take(j as int + 1), corner, edge, b) =~= oct_filter(
                    items@.take(j as int),
                    corner,
                    edge,
                    b,
                ));
            }
            assert(oct_filter(items@.take(j as int + 1), corner, edge, oo) =~= oct_filter(
                items@.take(j as int),
                corner,
                edge,
                oo,
            ).push(it));
        }
        let o: usize = octant_exec(it.position, corner, edge);
        if o == 0 {
            b0.push(it);
        } else if o == 1 {
            b1.push(it);
        } else if o == 2 {
            b2.push(it);
        } else if o == 3 {
            b3.push(it);
        } else if o == 4 {
            b4.push(it);
        } else if o == 5 {
            b5.push(it);
        } else if o == 6 {
            b6.push(it);
        } else {
            b7.push(it);
        }
        j = j + 1;
    }
    proof {
        assert(items@.take(n_items as int) =~= items@);
    }
    (b0, b1, b2, b3, b4, b5, b6, b7)
}

/// A bucket holds at most as many points as its source.
proof fn lemma_oct_filter_le(s: Seq<ComputedPoint>, corner: Vec3, edge: i64, o: int)
    ensures
        oct_filter(s, corner, edge, o).len() <= s.len(),
    decreases s.len(),
{
    if s.len() > 0 {
        lemma_oct_filter_le(s.drop_last(), corner, edge, o);
    }
}

/// Routes a leaf's points into child leaves with consecutive fresh keys:
/// one child per nonempty octant bucket. The allocated key band holds
/// exactly the children's keys.
#[verifier::rlimit(100)]
#[verifier::spinoff_prover]
fn build_children(
    items: Vec<ComputedPoint>,
    corner: Vec3,
    edge: i64,
    cache: &mut Cache,
    next_key: &mut u64,
) -> (r: (Vec<Option<Node>>, u64))
    requires
        old(cache).wf(),
        cube_wf(corner, edge),
        edge >= 2,
        items@.len() <= MAX_LEAF_SIZE,
        forall|i: int|
            0 <= i < items@.len() ==> (#[trigger] items@[i]).wf() && in_cube(
                items@[i].position,
                corner,
                edge,
            ),
        *old(next_key) < 0xffff_ffff_ffff_fff0,
    ensures
        final(cache).wf(),
        final(cache).spec_budget() == old(cache).spec_budget(),
        r.0@.len() == 8,
        wf_children(r.0@, 8, final(cache)@, corner, edge),
        sum_counts(r.0@, 8) == items@.len(),
        msets_children(r.0@, 8) == items@.to_multiset(),
        tn_children(r.0@, 8) == r.1,
        r.1 <= 8,
        forall|o1: int, o2: int|
            0 <= o1 < o2 < 8 ==> child_keys(r.0@, o1).disjoint(child_keys(r.0@, o2)),
        forall|k2: u64|
            #[trigger] keys_children(r.0@, 8).contains(k2) ==> *old(next_key) <= k2 && k2
                < *final(next_key),
        forall|k2: u64|
            *old(next_key) <= k2 < *final(next_key) ==> #[trigger] keys_children(r.0@, 8).contains(
                k2,
            ),
        *old(next_key) <= *final(next_key),
        *final(next_key) as int == *old(next_key) as int + r.1,
        forall|k2: u64|
            !(*old(next_key) <= k2 < *final(next_key)) ==> (#[trigger] final(cache)@.contains_key(
                k2,
            )) == old(cache)@.contains_key(k2) && (old(cache)@.contains_key(k2) ==> final(cache)@[k2]
                == old(cache)@[k2]),
{
    let ghost pts = items@;
    let buckets = route_buckets(items, corner, edge);
    let (b0, b1, b2, b3, b4, b5, b6, b7) = buckets;
    let mut rb: Vec<Vec<ComputedPoint>> = Vec::new();
    rb.push(b0);
    rb.push(b1);
    rb.push(b2);
    rb.push(b3);
    rb.push(b4);
    rb.push(b5);
    rb.push(b6);
    rb.push(b7);
    proof {
        assert forall|b: int| 0 <= b < 8 implies (#[trigger] rb@[b])@ == oct_filter(
            pts,
            corner,
            edge,
            b,
        ) by {}
        assert forall|o: int| 0 <= o < 8 implies oct_filter(pts, corner, edge, o).len()
            <= MAX_LEAF_SIZE by {
            lemma_oct_filter_le(pts, corner, edge, o);
        }
    }
    let ghost nk_base = *next_key;
    let mut kids: Vec<Option<Node>> = Vec::new();
    let mut created: u64 = 0;
    let mut o: usize = 0;
    while o < 8
        invariant
            o <= 8,
            cache.wf(),
            cache.spec_budget() == old(cache).spec_budget(),
            cube_wf(corner, edge),
            edge >= 2,
            pts.len() <= MAX_LEAF_SIZE,
            forall|i: int|
                0 <= i < pts.len() ==> (#[trigger] pts[i]).wf() && in_cube(
                    pts[i].position,
                    corner,
                    edge,
                ),
            rb@.len() == 8 - o,
            forall|b: int|
                0 <= b < rb@.len() ==> (#[trigger] rb@[b])@ == oct_filter(
                    pts,
                    corner,
                    edge,
                    o + b,
                ),
            kids@.len() == o,
            wf_children(kids@, o as int, cache@, corner, edge),
            sum_counts(kids@, o as int) == bucket_len_pref(pts, corner, edge, o as int),
            msets_children(kids@, o as int) == bucket_msets_pref(pts, corner, edge, o as int),
            tn_children(kids@, o as int) == created,
            created <= o,
            forall|o1: int, o2: int|
                0 <= o1 < o2 < o ==> child_keys(kids@, o1).disjoint(child_keys(kids@, o2)),
            forall|k2: u64|
                #[trigger] keys_children(kids@, o as int).contains(k2) ==> nk_base <= k2 && k2
                    < *next_key,
            forall|k2: u64|
                nk_base <= k2 < *next_key ==> #[trigger] keys_children(kids@, o as int).contains(
                    k2,
                ),
            nk_base <= *next_key,
            *next_key as int == nk_base + created,
            *next_key as int <= nk_base + o,
            nk_base == *old(next_key),
            *old(next_key) < 0xffff_ffff_ffff_fff0,
            forall|k2: u64|
                !(nk_base <= k2 < *next_key) ==> (#[trigger] cache@.contains_key(k2)) == old(
                    cache,
                )@.contains_key(k2) && (old(cache)@.contains_key(k2) ==> cache@[k2] == old(
                    cache,
                )@[k2]),
        decreases 8 - o,
    {
        let ghost oi = o as int;
        let ghost kids0 = kids@;
        let ghost cm_entry = cache@;
        let ghost nk_here = *next_key;
        let bucket: Vec<ComputedPoint> = rb.remove(0);
        let ghost gb = bucket@;
        proof {
            assert(gb == oct_filter(pts, corner, edge, oi));
            lemma_oct_filter_le(pts, corner, edge, oi);
            lemma_oct_filter_elems(pts, corner, edge, oi);
        }
        let child = make_child(bucket, cache, next_key);
        let grew: u64 = if child.is_some() {
            1u64
        } else {
            0u64
        };
        let ghost child_g = child;
        kids.push(child);
        created = created + grew;
        proof {
            let kv = kids@;
            assert(kv =~= kids0.push(child_g));
            assert(kv.len() == oi + 1);
            assert(kv[oi] == child_g);
            // earlier slots keep their keys and buffers
            assert forall|k2: u64| #[trigger] keys_children(kids0, oi).contains(k2)
                implies cache@.contains_key(k2) && cache@[k2] == cm_entry[k2] by {
                lemma_keys_contained_children(kids0, oi, cm_entry, corner, edge, k2);
                assert(nk_base <= k2 && k2 < nk_here);
                assert(k2 != nk_here);
                assert(cache@.contains_key(k2) == cm_entry.contains_key(k2));
            }
            assert forall|b: int| 0 <= b < oi implies child_keys(kv, b) == child_keys(
                kids0,
                b,
            ) by {
                assert(kv[b] == kids0[b]);
            }
            lemma_keys_prefix_eq(kids0, kv, oi);
            lemma_wf_stable_children(kids0, oi, cm_entry, cache@, corner, edge);
            lemma_wf_children_push(kids0, kv, oi, cm_entry, cache@, corner, edge, child_g);
            if gb.len() > 0 {
                assert(child_keys(kv, oi) =~= set![nk_here]);
                match child_g {
                    Option::Some(c) => {
                        assert(c is Leaf);
                        assert(tree_nodes(c) == 1);
                        assert(count_field(c) == gb.len());
                    },
                    Option::None => {
                        assert(false);
                    },
                }
            } else {
                assert(child_keys(kv, oi) =~= Set::<u64>::empty());
            }
            lemma_sums_prefix_eq(kids0, kv, oi);
            assert(sum_counts(kv, oi + 1) == sum_counts(kv, oi) + (match kv[oi] {
                Option::None => 0int,
                Option::Some(c) => count_field(c),
            }));
            // the new slot contributes exactly its bucket's points
            assert(msets_children(kv, oi + 1) == msets_children(kv, oi).add(
                match kv[oi] {
                    Option::None => Multiset::<ComputedPoint>::empty(),
                    Option::Some(c) => points_mset(c),
                },
            ));
            assert((match kv[oi] {
                Option::None => Multiset::<ComputedPoint>::empty(),
                Option::Some(c) => points_mset(c),
            }) == gb.to_multiset()) by {
                if gb.len() == 0 {
                    lemma_seq_empty_mset(gb);
                }
            }
            assert(bucket_msets_pref(pts, corner, edge, oi + 1) == bucket_msets_pref(
                pts,
                corner,
                edge,
                oi,
            ).add(oct_filter(pts, corner, edge, oi).to_multiset()));
            assert(msets_children(kv, oi + 1) == bucket_msets_pref(pts, corner, edge, oi + 1));
            assert(sum_counts(kv, oi + 1) == bucket_len_pref(pts, corner, edge, oi + 1));
            assert(tn_children(kv, oi + 1) == created);
            // key band grows by at most the fresh key
            assert forall|k2: u64| #[trigger] keys_children(kv, oi + 1).contains(k2)
                implies nk_base <= k2 && k2 < *next_key by {
                if keys_children(kv, oi).contains(k2) {
                    assert(keys_children(kids0, oi).contains(k2));
                } else {
                    assert(child_keys(kv, oi).contains(k2));
                }
            }
            assert forall|k2: u64| nk_base <= k2 < *next_key implies #[trigger] keys_children(
                kv,
                oi + 1,
            ).contains(k2) by {
                if k2 < nk_here {
                    assert(keys_children(kids0, oi).contains(k2));
                    assert(keys_children(kv, oi).contains(k2));
                    assert(keys_children(kv, oi + 1) == keys_children(kv, oi).union(
                        child_keys(kv, oi),
                    ));
                } else {
                    assert(gb.len() > 0);
                    assert(child_keys(kv, oi).contains(k2));
                    lemma_keys_children_member(kv, oi, oi + 1);
                }
            }
            assert forall|k2: u64| !(nk_base <= k2 < *next_key)
                implies cache@.contains_key(k2) == old(cache)@.contains_key(k2) && (old(
                cache,
            )@.contains_key(k2) ==> cache@[k2] == old(cache)@[k2]) by {
                if gb.len() > 0 {
                    assert(k2 != nk_here);
                    assert(cache@.contains_key(k2) == cm_entry.contains_key(k2));
                    assert(cm_entry.contains_key(k2) ==> cache@[k2] == cm_entry[k2]);
                } else {
                    assert(cache@ == cm_entry);
                }
                assert(!(nk_base <= k2 < nk_here));
            }
            assert forall|o1: int, o2: int| 0 <= o1 < o2 < oi + 1 implies child_keys(
                kv,
                o1,
            ).disjoint(child_keys(kv, o2)) by {
                if o2 < oi {
                    assert(child_keys(kv, o1) == child_keys(kids0, o1));
                    assert(child_keys(kv, o2) == child_keys(kids0, o2));
                } else {
                    assert(o2 == oi);
                    assert forall|k2: u64| #[trigger] child_keys(kv, o1).contains(k2)
                        implies !child_keys(kv, o2).contains(k2) by {
                        assert(child_keys(kv, o1) == child_keys(kids0, o1));
                        lemma_keys_children_member(kids0, o1, oi);
                        assert(keys_children(kids0, oi).contains(k2));
                        assert(k2 < nk_here);
                    }
                }
            }
        }
        o = o + 1;
    }
    proof {
        lemma_oct_filter_msets_total(pts, corner, edge);
        assert(bucket_len_pref(pts, corner, edge, 8) == pts.len()) by {
            lemma_oct_filter_total(pts, corner, edge);
            assert(bucket_len_pref(pts, corner, edge, 0) == 0);
            assert(bucket_len_pref(pts, corner, edge, 1) == oct_filter(pts, corner, edge, 0).len());
            assert(bucket_len_pref(pts, corner, edge, 2) == bucket_len_pref(pts, corner, edge, 1)
                + oct_filter(pts, corner, edge, 1).len());
            assert(bucket_len_pref(pts, corner, edge, 3) == bucket_len_pref(pts, corner, edge, 2)
                + oct_filter(pts, corner, edge, 2).len());
            assert(bucket_len_pref(pts, corner, edge, 4) == bucket_len_pref(pts, corner, edge, 3)
                + oct_filter(pts, corner, edge, 3).len());
            assert(bucket_len_pref(pts, corner, edge, 5) == bucket_len_pref(pts, corner, edge, 4)
                + oct_filter(pts, corner, edge, 4).len());
            assert(bucket_len_pref(pts, corner, edge, 6) == bucket_len_pref(pts, corner, edge, 5)
                + oct_filter(pts, corner, edge, 5).len());
            assert(bucket_len_pref(pts, corner, edge, 7) == bucket_len_pref(pts, corner, edge, 6)
                + oct_filter(pts, corner, edge, 6).len());
            assert(bucket_len_pref(pts, corner, edge, 8) == bucket_len_pref(pts, corner, edge, 7)
                + oct_filter(pts, corner, edge, 7).len());
        }
    }
    (kids, created)
}

/// The points of the first `k` octant buckets, as a multiset.
pub open spec fn bucket_msets_pref(pts: Seq<ComputedPoint>, corner: Vec3, edge: i64, k: int) -> Multiset<ComputedPoint>
    decreases k,
{
    if k <= 0 {
        Multiset::empty()
    } else {
        bucket_msets_pref(pts, corner, edge, k - 1).add(
            oct_filter(pts, corner, edge, k - 1).to_multiset(),
        )
    }
}

/// The eight octant buckets carry exactly the source points.
#[verifier::rlimit(100)]
proof fn lemma_oct_filter_msets_total(s: Seq<ComputedPoint>, corner: Vec3, edge: i64)
    requires
        cube_wf(corner, edge),
        edge >= 2,
        forall|i: int| 0 <= i < s.len() ==> in_cube((#[trigger] s[i]).position, corner, edge),
    ensures
        bucket_msets_pref(s, corner, edge, 8) == s.to_multiset(),
    decreases s.len(),
{
    broadcast use vstd::seq_lib::group_to_multiset_ensures;
    broadcast use vstd::multiset::group_multiset_axioms;

    if s.len() == 0 {
        let e = Seq::<ComputedPoint>::empty().to_multiset();
        assert forall|x: ComputedPoint| e.count(x) == 0 by {
            assert(!Seq::<ComputedPoint>::empty().contains(x));
        }
        assert(e =~= Multiset::<ComputedPoint>::empty());
        assert(s =~= Seq::<ComputedPoint>::empty());
        assert forall|b: int| 0 <= b < 8 implies oct_filter(s, corner, edge, b).to_multiset()
            == Multiset::<ComputedPoint>::empty() by {
            assert(oct_filter(s, corner, edge, b) =~= Seq::<ComputedPoint>::empty());
        }
        assert(bucket_msets_pref(s, corner, edge, 0) =~= Multiset::<ComputedPoint>::empty());
        assert(bucket_msets_pref(s, corner, edge, 1) =~= Multiset::<ComputedPoint>::empty());
        assert(bucket_msets_pref(s, corner, edge, 2) =~= Multiset::<ComputedPoint>::empty());
        assert(bucket_msets_pref(s, corner, edge, 3) =~= Multiset::<ComputedPoint>::empty());
        assert(bucket_msets_pref(s, corner, edge, 4) =~= Multiset::<ComputedPoint>::empty());
        assert(bucket_msets_pref(s, corner, edge, 5) =~= Multiset::<ComputedPoint>::empty());
        assert(bucket_msets_pref(s, corner, edge, 6) =~= Multiset::<ComputedPoint>::empty());
        assert(bucket_msets_pref(s, corner, edge, 7) =~= Multiset::<ComputedPoint>::empty());
        assert(bucket_msets_pref(s, corner, edge, 8) =~= s.to_multiset());
    } else {
        let pre = s.drop_last();
        lemma_oct_filter_msets_total(pre, corner, edge);
        lemma_octant_child(s.last().position, corner, edge);
        let oo = octant(s.last().position, corner, edge);
        assert forall|b: int| 0 <= b < 8 && b != oo implies oct_filter(
            s,
            corner,
            edge,
            b,
        ).to_multiset() =~= oct_filter(pre, corner, edge, b).to_multiset() by {
            assert(oct_filter(s, corner, edge, b) =~= oct_filter(pre, corner, edge, b));
        }
        let pushed = oct_filter(pre, corner, edge, oo).push(s.last());
        assert(oct_filter(s, corner, edge, oo) =~= pushed);
        assert(pushed.to_multiset() =~= oct_filter(pre, corner, edge, oo).to_multiset().insert(
            s.last(),
        ));
        assert(oct_filter(s, corner, edge, oo).to_multiset() == pushed.to_multiset());
        let whole = pre.push(s.last());
        assert(s =~= whole);
        assert(whole.to_multiset() =~= pre.to_multiset().insert(s.last()));
        assert(s.to_multiset() == whole.to_multiset());
        assert(bucket_msets_pref(s, corner, edge, 0) =~= Multiset::<ComputedPoint>::empty());
        assert(bucket_msets_pref(pre, corner, edge, 0) =~= Multiset::<ComputedPoint>::empty());
        assert(bucket_msets_pref(s, corner, edge, 1) =~= bucket_msets_pref(
            pre,
            corner,
            edge,
            1,
        ).add(if oo == 0 {
            Multiset::<ComputedPoint>::empty().insert(s.last())
        } else {
            Multiset::<ComputedPoint>::empty()
        }));
        assert(bucket_msets_pref(s, corner, edge, 2) =~= bucket_msets_pref(
            pre,
            corner,
            edge,
            2,
        ).add(if oo < 2 {
            Multiset::<ComputedPoint>::empty().insert(s.last())
        } else {
            Multiset::<ComputedPoint>::empty()
        }));
        assert(bucket_msets_pref(s, corner, edge, 3) =~= bucket_msets_pref(
            pre,
            corner,
            edge,
            3,
        ).add(if oo < 3 {
            Multiset::<ComputedPoint>::empty().insert(s.last())
        } else {
            Multiset::<ComputedPoint>::empty()
        }));
        assert(bucket_msets_pref(s, corner, edge, 4) =~= bucket_msets_pref(
            pre,
            corner,
            edge,
            4,
        ).add(if oo < 4 {
            Multiset::<ComputedPoint>::empty().insert(s.last())
        } else {
            Multiset::<ComputedPoint>::empty()
        }));
        assert(bucket_msets_pref(s, corner, edge, 5) =~= bucket_msets_pref(
            pre,
            corner,
            edge,
            5,
        ).add(if oo < 5 {
            Multiset::<ComputedPoint>::empty().insert(s.last())
        } else {
            Multiset::<ComputedPoint>::empty()
        }));
        assert(bucket_msets_pref(s, corner, edge, 6) =~= bucket_msets_pref(
            pre,
            corner,
            edge,
            6,
        ).add(if oo < 6 {
            Multiset::<ComputedPoint>::empty().insert(s.last())
        } else {
            Multiset::<ComputedPoint>::empty()
        }));
        assert(bucket_msets_pref(s, corner, edge, 7) =~= bucket_msets_pref(
            pre,
            corner,
            edge,
            7,
        ).add(if oo < 7 {
            Multiset::<ComputedPoint>::empty().insert(s.last())
        } else {
            Multiset::<ComputedPoint>::empty()
        }));
        assert(bucket_msets_pref(s, corner, edge, 8) =~= bucket_msets_pref(
            pre,
            corner,
            edge,
            8,
        ).insert(s.last()));
    }
}

/// An empty point list holds the empty multiset.
proof fn lemma_seq_empty_mset(s: Seq<ComputedPoint>)
    requires
        s.len() == 0,
    ensures
        s.to_multiset() == Multiset::<ComputedPoint>::empty(),
{
    broadcast use vstd::seq_lib::group_to_multiset_ensures;
    broadcast use vstd::multiset::group_multiset_axioms;

    assert forall|x: ComputedPoint| s.to_multiset().count(x) == 0 by {
        assert(!s.contains(x));
    }
    assert(s.to_multiset() =~= Multiset::<ComputedPoint>::empty());
}

/// Multisets cancel on a common addend.
proof fn lemma_mset_cancel(
    a: Multiset<ComputedPoint>,
    b: Multiset<ComputedPoint>,
    c: Multiset<ComputedPoint>,
)
    requires
        a.add(c) == b.add(c),
    ensures
        a == b,
{
    broadcast use vstd::multiset::group_multiset_axioms;

    let lhs = a.add(c);
    let rhs = b.add(c);
    assert forall|x: ComputedPoint| a.count(x) == b.count(x) by {
        assert(lhs.count(x) == a.count(x) + c.count(x));
        assert(rhs.count(x) == b.count(x) + c.count(x));
        assert(lhs.count(x) == rhs.count(x));
    }
    assert(a =~= b);
}

/// Total size of the first `k` octant buckets.
pub open spec fn bucket_len_pref(pts: Seq<ComputedPoint>, corner: Vec3, edge: i64, k: int) -> int
    decreases k,
{
    if k <= 0 {
        0
    } else {
        bucket_len_pref(pts, corner, edge, k - 1) + oct_filter(pts, corner, edge, k - 1).len()
    }
}

/// A push leaves the facts about a strict prefix of the child list alone.
proof fn lemma_keys_prefix_eq(cs1: Seq<Option<Node>>, cs2: Seq<Option<Node>>, k: int)
    requires
        0 <= k <= cs1.len(),
        k <= cs2.len(),
        cs1.len() <= 8,
        cs2.len() <= 8,
        forall|b: int| 0 <= b < k ==> cs1[b] == cs2[b],
    ensures
        keys_children(cs1, k) == keys_children(cs2, k),
    decreases k,
{
    if k > 0 {
        lemma_keys_prefix_eq(cs1, cs2, k - 1);
    }
}

proof fn lemma_sums_prefix_eq(cs1: Seq<Option<Node>>, cs2: Seq<Option<Node>>, k: int)
    requires
        0 <= k <= cs1.len(),
        k <= cs2.len(),
        cs1.len() <= 8,
        cs2.len() <= 8,
        forall|b: int| 0 <= b < k ==> cs1[b] == cs2[b],
    ensures
        sum_counts(cs1, k) == sum_counts(cs2, k),
        tn_children(cs1, k) == tn_children(cs2, k),
        lp_children(cs1, k) == lp_children(cs2, k),
        msets_children(cs1, k) == msets_children(cs2, k),
    decreases k,
{
    if k > 0 {
        lemma_sums_prefix_eq(cs1, cs2, k - 1);
    }
}

/// A prefix of children stays well formed when one more slot is appended.
proof fn lemma_wf_children_push(
    cs1: Seq<Option<Node>>,
    cs2: Seq<Option<Node>>,
    k: int,
    cm1: Map<u64, Seq<u8>>,
    cm2: Map<u64, Seq<u8>>,
    corner: Vec3,
    edge: i64,
    x: Option<Node>,
)
    requires
        0 <= k <= cs1.len(),
        k < cs2.len(),
        cs1.len() <= 8,
        cs2.len() <= 8,
        forall|b: int| 0 <= b < k ==> cs1[b] == cs2[b],
        cs2[k] == x,
        wf_children(cs1, k, cm2, corner, edge),
        (match x {
            Option::None => true,
            Option::Some(c) => wf_node(c, cm2, child_corner(corner, edge, k), (edge / 2) as i64),
        }),
    ensures
        wf_children(cs2, k + 1, cm2, corner, edge),
    decreases k,
{
    lemma_wf_children_prefix_eq(cs1, cs2, k, cm2, corner, edge);
}

proof fn lemma_wf_children_prefix_eq(
    cs1: Seq<Option<Node>>,
    cs2: Seq<Option<Node>>,
    k: int,
    cm: Map<u64, Seq<u8>>,
    corner: Vec3,
    edge: i64,
)
    requires
        0 <= k <= cs1.len(),
        k <= cs2.len(),
        cs1.len() <= 8,
        cs2.len() <= 8,
        forall|b: int| 0 <= b < k ==> cs1[b] == cs2[b],
        wf_children(cs1, k, cm, corner, edge),
    ensures
        wf_children(cs2, k, cm, corner, edge),
    decreases k,
{
    if k > 0 {
        lemma_wf_children_prefix_eq(cs1, cs2, k - 1, cm, corner, edge);
    }
}

/// Splits a full leaf: redistributes its buffered points into up-to-eight
/// child leaves by octant, reusing the leaf's own buffer for the new
/// branch's representatives. Returns the branch and the number of
/// children created.
#[verifier::rlimit(100)]
#[verifier::spinoff_prover]
fn split_leaf(
    key: u64,
    count: u64,
    Ghost(pts): Ghost<Seq<ComputedPoint>>,
    corner: Vec3,
    edge: i64,
    cache: &mut Cache,
    next_key: &mut u64,
) -> (r: (Node, u64))
    requires
        old(cache).wf(),
        old(cache)@.contains_key(key),
        old(cache)@[key] == points_bytes(pts),
        count as int == pts.len(),
        count <= MAX_LEAF_SIZE as u64,
        cube_wf(corner, edge),
        edge >= 2,
        forall|i: int|
            0 <= i < pts.len() ==> (#[trigger] pts[i]).wf() && in_cube(
                pts[i].position,
                corner,
                edge,
            ),
        key < *old(next_key),
        *old(next_key) < 0xffff_ffff_ffff_fff0,
    ensures
        final(cache).wf(),
        final(cache).spec_budget() == old(cache).spec_budget(),
        wf_node(r.0, final(cache)@, corner, edge),
        tag_of(r.0) == 0,
        count_field(r.0) == count,
        points_mset(r.0) == pts.to_multiset(),
        tree_nodes(r.0) == 1 + r.1,
        r.1 <= 8,
        keys_below(r.0, *final(next_key)),
        *old(next_key) <= *final(next_key),
        *final(next_key) as int == *old(next_key) as int + r.1,
        keys_set(r.0).contains(key),
        forall|k: u64| #[trigger] keys_set(r.0).contains(k) ==> k == key || k >= *old(next_key),
        forall|k: u64|
            !(#[trigger] keys_set(r.0).contains(k)) ==> final(cache)@.contains_key(k) == old(
                cache,
            )@.contains_key(k) && (old(cache)@.contains_key(k) ==> final(cache)@[k] == old(
                cache,
            )@[k]),
{
    let bytes = cache.read(key);
    let items: Vec<ComputedPoint> = decode_points(&bytes, Ghost(pts));
    cache.clear(key);
    let ghost cm_mid = cache@;
    let ghost nk_a = *next_key;
    let built = build_children(items, corner, edge, cache, next_key);
    let kids = built.0;
    let created = built.1;
    let ghost kv = kids@;
    let branch = Node::Branch {
        children: kids,
        count,
        rep_key: key,
        rep_count: 0,
        reps: Ghost(Seq::empty()),
        routed: count,
    };
    proof {
        let cmx = cache@;
        assert(points_bytes(Seq::<ComputedPoint>::empty()) =~= Seq::<u8>::empty());
        assert(cm_mid.contains_key(key) && cm_mid[key] =~= Seq::<u8>::empty());
        assert(key < nk_a);
        assert(!(nk_a <= key < *next_key));
        assert(cmx.contains_key(key) == cm_mid.contains_key(key));
        assert(cmx.contains_key(key));
        assert(cm_mid.contains_key(key) ==> cmx[key] == cm_mid[key]);
        assert(cmx[key] =~= Seq::<u8>::empty());
        assert forall|oo: int| 0 <= oo < 8 implies !(#[trigger] child_keys(kv, oo)).contains(
            key,
        ) by {
            if child_keys(kv, oo).contains(key) {
                lemma_keys_children_member(kv, oo, 8);
            }
        }
        assert(wf_node(branch, cmx, corner, edge));
        assert(points_mset(branch) == msets_children(kv, 8));
        assert(keys_set(branch) == keys_children(kv, 8).insert(key));
        assert forall|k2: u64| !(#[trigger] keys_set(branch).contains(k2))
            implies cmx.contains_key(k2) == old(cache)@.contains_key(k2) && (old(
            cache,
        )@.contains_key(k2) ==> cmx[k2] == old(cache)@[k2]) by {
            assert(k2 != key);
            assert(!keys_children(kv, 8).contains(k2));
            assert(!(nk_a <= k2 < *next_key));
            assert(cmx.contains_key(k2) == cm_mid.contains_key(k2) && (cm_mid.contains_key(k2)
                ==> cmx[k2] == cm_mid[k2]));
            assert(cm_mid.contains_key(k2) == old(cache)@.contains_key(k2));
        }
    }
    (branch, created)
}


/// Inserts one computed point into a subtree: descends the cube hierarchy
/// by octant, creating children on demand; a full leaf splits into eight,
/// redistributing its buffered points; every branch passed keeps each
/// eighth routed point as a size-scaled representative. Returns the new
/// subtree and the number of nodes it grew by.
#[verifier::rlimit(100)]
#[verifier::spinoff_prover]
fn insert_node(
    n: Node,
    corner: Vec3,
    edge: i64,
    p: ComputedPoint,
    lod_scale: u32,
    cache: &mut Cache,
    next_key: &mut u64,
) -> (r: (Node, u64))
    requires
        old(cache).wf(),
        wf_node(n, old(cache)@, corner, edge),
        cube_wf(corner, edge),
        in_cube(p.position, corner, edge),
        p.wf(),
        lod_scale <= 1000,
        keys_below(n, *old(next_key)),
        *old(next_key) as int + 16 * (edge as int) + 8 * tag_of(n) <= 0x1000_0000_0000_0000,
        count_field(n) < MAX_TREE_POINTS,
    ensures
        final(cache).wf(),
        final(cache).spec_budget() == old(cache).spec_budget(),
        wf_node(r.0, final(cache)@, corner, edge),
        count_field(r.0) == count_field(n) + 1,
        points_mset(r.0) == points_mset(n).insert(p),
        tree_nodes(r.0) == tree_nodes(n) + r.1,
        r.1 as int <= 16 * (edge as int) + 8 * tag_of(n),
        keys_below(r.0, *final(next_key)),
        *old(next_key) <= *final(next_key),
        (*final(next_key)) as int == *old(next_key) as int + r.1,
        (*final(next_key)) as int <= *old(next_key) as int + 16 * (edge as int) + 8 * tag_of(n),
        forall|k: u64|
            #[trigger] keys_set(r.0).contains(k) ==> keys_set(n).contains(k) || k >= *old(
                next_key,
            ),
        forall|k: u64| #[trigger] keys_set(n).contains(k) ==> keys_set(r.0).contains(k),
        forall|k: u64|
            !(#[trigger] keys_set(r.0).contains(k)) ==> (final(cache)@.contains_key(k) == old(
                cache,
            )@.contains_key(k) && (old(cache)@.contains_key(k) ==> final(cache)@[k] == old(
                cache,
            )@[k])),
    decreases edge, tag_of(n),
{
    match n {
        Node::Leaf { key, count, pts } => {
            if edge < 2 || count < MAX_LEAF_SIZE as u64 {
                // room left, or a cube too small to split: append
                let mut buf: Vec<u8> = Vec::new();
                encode_point(&mut buf, &p);
                proof {
                    lemma_points_bytes_len(pts@);
                    lemma_points_bytes_push(pts@, p);
                    crate::point::lemma_point_bytes_len(p);
                    assert(keys_set(n).contains(key));
                    assert(72 * pts@.len() + 72 <= 0x1000_0000_0000_0000) by (nonlinear_arith)
                        requires pts@.len() < 0x4_0000_0000_0000;
                }
                cache.append(key, &buf);
                let r0 = Node::Leaf { key, count: count + 1, pts: Ghost(pts@.push(p)) };
                proof {
                    broadcast use vstd::seq_lib::group_to_multiset_ensures;

                    assert(pts@.push(p).to_multiset() =~= pts@.to_multiset().insert(p));
                    assert(keys_set(r0) =~= keys_set(n));
                    assert(cache@[key] == points_bytes(pts@.push(p)));
                    assert forall|i: int| 0 <= i < pts@.push(p).len() implies (#[trigger] pts@.push(
                        p,
                    )[i]).wf() && in_cube(pts@.push(p)[i].position, corner, edge) by {
                        if i < pts@.len() {
                            assert(pts@.push(p)[i] == pts@[i]);
                        }
                    }
                }
                (r0, 0)
            } else {
                // full leaf: split, then descend into the new branch
                proof {
                    assert(keys_set(n).contains(key));
                }
                let split = split_leaf(key, count, Ghost(pts@), corner, edge, cache, next_key);
                let branch = split.0;
                proof {
                    assert(points_mset(branch) == points_mset(n));
                    assert(keys_set(n) =~= set![key]);
                    assert forall|k2: u64| #[trigger] keys_set(branch).contains(k2) implies k2
                        < *next_key by {}
                }
                let rec = insert_node(branch, corner, edge, p, lod_scale, cache, next_key);
                proof {
                    assert forall|k2: u64| #[trigger] keys_set(rec.0).contains(k2)
                        implies keys_set(n).contains(k2) || k2 >= *old(next_key) by {}
                    assert forall|k2: u64| !(#[trigger] keys_set(rec.0).contains(k2))
                        implies (cache@.contains_key(k2) == old(cache)@.contains_key(k2) && (old(
                        cache,
                    )@.contains_key(k2) ==> cache@[k2] == old(cache)@[k2])) by {
                        assert(!keys_set(branch).contains(k2));
                        assert(k2 != key);
                    }
                }
                (rec.0, split.1 + rec.1)
            }
        },
        Node::Branch { children, count, rep_key, rep_count, reps, routed } => {
            let mut kids = children;
            let ghost cm_in = cache@;
            // keep every eighth routed point as a representative
            let mut new_rep_count: u64 = rep_count;
            let ghost mut new_reps: Seq<ComputedPoint> = reps@;
            if routed % 8 == 0 {
                let scaled: i64 = scale_size(p.size, lod_scale);
                let rp = ComputedPoint {
                    position: p.position,
                    normal: p.normal,
                    size: scaled,
                    segment: p.segment,
                    slice: p.slice,
                    sub_index: p.sub_index,
                    curve: p.curve,
                };
                let mut buf: Vec<u8> = Vec::new();
                encode_point(&mut buf, &rp);
                proof {
                    lemma_points_bytes_len(reps@);
                    lemma_points_bytes_push(reps@, rp);
                    crate::point::lemma_point_bytes_len(rp);
                    assert(keys_set(n).contains(rep_key));
                    assert(72 * reps@.len() + 72 <= 0x1000_0000_0000_0000) by (nonlinear_arith)
                        requires reps@.len() < 0x4_0000_0000_0000;
                }
                cache.append(rep_key, &buf);
                new_rep_count = new_rep_count + 1;
                proof {
                    new_reps = reps@.push(rp);
                    assert(cache@[rep_key] == points_bytes(new_reps));
                    assert forall|i: int| 0 <= i < new_reps.len() implies (
                    #[trigger] new_reps[i]).wf() by {
                        if i < reps@.len() {
                            assert(new_reps[i] == reps@[i]);
                        }
                    }
                }
            }
            let ghost cm_rep = cache@;
            proof {
                // the representative buffer is no child's: their view of
                // the cache is unchanged
                assert forall|k: u64| #[trigger] keys_children(kids@, 8).contains(k)
                    implies cm_rep.contains_key(k) && cm_rep[k] == cm_in[k] by {
                    lemma_keys_children_elem(kids@, 8, k);
                    let oo = choose|oo: int|
                        0 <= oo < 8 && (#[trigger] child_keys(kids@, oo)).contains(k);
                    assert(k != rep_key);
                    lemma_keys_contained_children(kids@, 8, cm_in, corner, edge, k);
                }
                lemma_wf_stable_children(kids@, 8, cm_in, cm_rep, corner, edge);
            }
            let o: usize = octant_exec(p.position, corner, edge);
            let ghost kids0 = kids@;
            let child_opt: Option<Node> = kids.remove(o);
            let ghost child_opt0 = child_opt;
            let mut created: u64 = 0;
            let child: Node = match child_opt {
                Option::Some(c) => c,
                Option::None => {
                    let nk: u64 = *next_key;
                    *next_key = nk + 1;
                    cache.clear(nk);
                    created = 1;
                    Node::Leaf { key: nk, count: 0, pts: Ghost(Seq::empty()) }
                },
            };
            let ghost cm_child0 = cache@;
            proof {
                lemma_wf_children_index(kids0, 8, cm_rep, corner, edge, o as int);
                lemma_keys_children_member(kids0, o as int, 8);
                match child_opt0 {
                    Option::Some(_) => {},
                    Option::None => {
                        // the fresh leaf's empty buffer, unseen by others
                        assert(points_bytes(Seq::<ComputedPoint>::empty()) =~= Seq::<u8>::empty());
                        assert forall|k: u64| #[trigger] keys_children(kids0, 8).contains(k)
                            implies cm_child0.contains_key(k) && cm_child0[k] == cm_rep[k] by {
                            lemma_keys_children_elem(kids0, 8, k);
                            assert(keys_set(n).contains(k)) by {
                                let oo = choose|oo: int|
                                    0 <= oo < 8 && (#[trigger] child_keys(kids0, oo)).contains(k);
                            };
                            lemma_keys_contained_children(kids0, 8, cm_rep, corner, edge, k);
                        }
                        lemma_wf_stable_children(kids0, 8, cm_rep, cm_child0, corner, edge);
                    },
                }
                lemma_child_cube_wf(corner, edge, o as int);
                lemma_octant_child(p.position, corner, edge);
                lemma_sum_counts_bound(kids0, 8, o as int);
            }
            let half: i64 = edge / 2;
            let cc = child_corner_exec(corner, edge, o);
            let ghost nk_call = *next_key;
            proof {
                assert forall|k2: u64| #[trigger] keys_set(child).contains(k2) implies k2
                    < nk_call by {
                    match child_opt0 {
                        Option::Some(_) => {
                            assert(child_keys(kids0, o as int).contains(k2));
                            assert(keys_set(n).contains(k2));
                        },
                        Option::None => {},
                    }
                }
            }
            let rec = insert_node(child, cc, half, p, lod_scale, cache, next_key);
            let new_child = rec.0;
            created = created + rec.1;
            kids.insert(o, Some(new_child));
            let r0 = Node::Branch {
                children: kids,
                count: count + 1,
                rep_key,
                rep_count: new_rep_count,
                reps: Ghost(new_reps),
                routed: routed + 1,
            };
            proof {
                let oi = o as int;
                let kvu = kids@;
                let cm_fin = cache@;
                assert(kvu =~= kids0.update(oi, Some(new_child)));
                assert(keys_set(n).contains(rep_key));
                assert(rep_key < *old(next_key));
                // the new child's keys: the old child's, or freshly drawn
                assert forall|k2: u64| #[trigger] keys_set(new_child).contains(k2)
                    implies child_keys(kids0, oi).contains(k2) || k2 >= *old(next_key) by {
                    if keys_set(child).contains(k2) {
                        match child_opt0 {
                            Option::Some(_) => {},
                            Option::None => {},
                        }
                    }
                }
                // sibling buffers are untouched by the descent
                assert forall|k2: u64|
                    #[trigger] keys_children(kids0, 8).contains(k2) && !child_keys(
                        kids0,
                        oi,
                    ).contains(k2) implies cm_fin.contains_key(k2) && cm_fin[k2]
                    == cm_child0[k2] by {
                    lemma_keys_children_elem(kids0, 8, k2);
                    let oo = choose|oo: int|
                        0 <= oo < 8 && (#[trigger] child_keys(kids0, oo)).contains(k2);
                    assert(keys_set(n).contains(k2));
                    assert(k2 < *old(next_key));
                    assert(!keys_set(new_child).contains(k2)) by {
                        if keys_set(new_child).contains(k2) {
                            if child_keys(kids0, oi).contains(k2) {
                            } else {
                                assert(k2 >= *old(next_key));
                            }
                        }
                    }
                    lemma_keys_contained_children(kids0, 8, cm_child0, corner, edge, k2);
                }
                lemma_wf_children_update(
                    kids0,
                    8,
                    cm_child0,
                    cm_fin,
                    corner,
                    edge,
                    oi,
                    Some(new_child),
                );
                // the representative buffer survives the descent
                assert(!keys_set(new_child).contains(rep_key)) by {
                    if keys_set(new_child).contains(rep_key) {
                        if child_keys(kids0, oi).contains(rep_key) {
                        } else {
                            assert(rep_key >= *old(next_key));
                        }
                    }
                }
                assert(cm_fin.contains_key(rep_key) && cm_fin[rep_key] == points_bytes(new_reps));
                // counts and node tally
                lemma_sum_counts_update(kids0, 8, oi, Some(new_child));
                assert(sum_counts(kvu, 8) == count + 1);
                assert(tn_children(kvu, 8) == tn_children(kids0, 8) + created);
                // content: exactly the inserted point was added
                let oldm = match kids0[oi] {
                    Option::None => Multiset::<ComputedPoint>::empty(),
                    Option::Some(c) => points_mset(c),
                };
                assert(points_mset(new_child) == oldm.insert(p)) by {
                    match child_opt0 {
                        Option::Some(_) => {},
                        Option::None => {
                            lemma_seq_empty_mset(Seq::<ComputedPoint>::empty());
                        },
                    }
                }
                assert(msets_children(kvu, 8).add(oldm) == msets_children(kids0, 8).add(
                    oldm.insert(p),
                ));
                assert forall|v: ComputedPoint| msets_children(kids0, 8).add(
                    oldm.insert(p),
                ).count(v) == (msets_children(kids0, 8).insert(p)).add(oldm).count(v) by {
                    broadcast use vstd::multiset::group_multiset_axioms;

                }
                assert(msets_children(kids0, 8).add(oldm.insert(p)) =~= (msets_children(
                    kids0,
                    8,
                ).insert(p)).add(oldm));
                lemma_mset_cancel(
                    msets_children(kvu, 8),
                    msets_children(kids0, 8).insert(p),
                    oldm,
                );
                assert(points_mset(r0) == points_mset(n).insert(p));
                // disjointness of the rebuilt child list
                assert forall|o1: int, o2: int| 0 <= o1 < o2 < 8 implies child_keys(
                    kvu,
                    o1,
                ).disjoint(child_keys(kvu, o2)) by {
                    assert forall|k2: u64| #[trigger] child_keys(kvu, o1).contains(k2)
                        implies !child_keys(kvu, o2).contains(k2) by {
                        if o1 != oi && o2 != oi {
                            if child_keys(kvu, o2).contains(k2) {
                                assert(kvu[o1] == kids0[o1]);
                                assert(kvu[o2] == kids0[o2]);
                                assert(child_keys(kids0, o1).contains(k2));
                                assert(child_keys(kids0, o2).contains(k2));
                                assert(child_keys(kids0, o1).disjoint(child_keys(kids0, o2)));
                                assert(false);
                            }
                        } else if o1 == oi {
                            if child_keys(kvu, o2).contains(k2) {
                                assert(kvu[oi] == Some(new_child));
                                assert(child_keys(kvu, oi) == keys_set(new_child));
                                assert(keys_set(new_child).contains(k2));
                                assert(kvu[o2] == kids0[o2]);
                                assert(child_keys(kids0, o2).contains(k2));
                                lemma_keys_children_member(kids0, o2, 8);
                                assert(keys_children(kids0, 8).contains(k2));
                                assert(keys_set(n).contains(k2));
                                assert(k2 < *old(next_key));
                                assert(child_keys(kids0, oi).contains(k2));
                                assert(child_keys(kids0, oi).disjoint(child_keys(kids0, o2)));
                                assert(false);
                            }
                        } else {
                            if child_keys(kvu, o2).contains(k2) {
                                assert(kvu[o1] == kids0[o1]);
                                assert(child_keys(kids0, o1).contains(k2));
                                assert(kvu[o2] == Some(new_child));
                                assert(child_keys(kvu, o2) == keys_set(new_child));
                                assert(keys_set(new_child).contains(k2));
                                lemma_keys_children_member(kids0, o1, 8);
                                assert(keys_children(kids0, 8).contains(k2));
                                assert(keys_set(n).contains(k2));
                                assert(k2 < *old(next_key));
                                assert(child_keys(kids0, oi).contains(k2));
                                assert(child_keys(kids0, o1).disjoint(child_keys(kids0, oi)));
                                assert(false);
                            }
                        }
                    }
                }
                // the representative key stays out of every child
                assert forall|oo: int| 0 <= oo < 8 implies !(#[trigger] child_keys(
                    kvu,
                    oo,
                )).contains(rep_key) by {
                    if oo != oi {
                        assert(child_keys(kvu, oo) == child_keys(kids0, oo));
                    }
                }
                assert(wf_node(r0, cm_fin, corner, edge));
                // key accounting
                lemma_keys_children_update(kids0, 8, oi, Some(new_child));
                assert(keys_set(r0) == keys_children(kvu, 8).insert(rep_key));
                assert forall|k2: u64| #[trigger] keys_set(r0).contains(k2) implies keys_set(
                    n,
                ).contains(k2) || k2 >= *old(next_key) by {
                    if k2 != rep_key {
                        if keys_children(kids0, 8).contains(k2) {
                        }
                    }
                }
                assert forall|k2: u64| #[trigger] keys_set(n).contains(k2) implies keys_set(
                    r0,
                ).contains(k2) by {
                    if k2 != rep_key {
                        lemma_keys_children_elem(kids0, 8, k2);
                        let oo = choose|oo: int|
                            0 <= oo < 8 && (#[trigger] child_keys(kids0, oo)).contains(k2);
                        if oo == oi {
                            assert(keys_set(new_child).contains(k2));
                            lemma_keys_children_member(kvu, oi, 8);
                        } else {
                            assert(!child_keys(kids0, oi).contains(k2)) by {
                                if child_keys(kids0, oi).contains(k2) {
                                    if oo < oi {
                                        assert(child_keys(kids0, oo).disjoint(
                                            child_keys(kids0, oi),
                                        ));
                                    } else {
                                        assert(child_keys(kids0, oi).disjoint(
                                            child_keys(kids0, oo),
                                        ));
                                    }
                                }
                            }
                            assert(child_keys(kvu, oo) == child_keys(kids0, oo));
                            lemma_keys_children_member(kvu, oo, 8);
                        }
                    }
                }
                assert forall|k2: u64| #[trigger] keys_set(r0).contains(k2) implies k2
                    < *next_key by {
                    if k2 != rep_key {
                        if keys_children(kids0, 8).contains(k2) {
                            lemma_keys_children_elem(kids0, 8, k2);
                            let oo = choose|oo: int|
                                0 <= oo < 8 && (#[trigger] child_keys(kids0, oo)).contains(k2);
                            assert(keys_set(n).contains(k2));
                        } else {
                            assert(keys_set(new_child).contains(k2));
                        }
                    }
                }
                // frame: untouched keys kept their bytes
                assert(keys_set(new_child).subset_of(keys_set(r0))) by {
                    lemma_keys_children_member(kvu, oi, 8);
                }
                assert forall|k2: u64| !(#[trigger] keys_set(r0).contains(k2))
                    implies (cm_fin.contains_key(k2) == old(cache)@.contains_key(k2) && (old(
                    cache,
                )@.contains_key(k2) ==> cm_fin[k2] == old(cache)@[k2])) by {
                    assert(k2 != rep_key);
                    assert(!keys_set(new_child).contains(k2));
                    match child_opt0 {
                        Option::Some(_) => {},
                        Option::None => {
                            assert(keys_set(child).contains((nk_call - 1) as u64));
                        },
                    }
                }
            }
            (r0, created)
        },
    }
}


/// Depth of a subtree: one for a leaf, one more than the deepest child.
pub open spec fn depth_of(n: Node) -> int
    decreases n,
{
    match n {
        Node::Leaf { .. } => 1,
        Node::Branch { children, .. } => 1 + depth_children(children@, 8),
    }
}

pub open spec fn depth_children(cs: Seq<Option<Node>>, k: int) -> int
    decreases cs, k,
{
    if k <= 0 || k > cs.len() {
        0
    } else {
        let rest = depth_children(cs, k - 1);
        let here = match cs[k - 1] {
            Option::None => 0int,
            Option::Some(c) => depth_of(c),
        };
        if here > rest {
            here
        } else {
            rest
        }
    }
}

/// The depth never exceeds the node count.
proof fn lemma_depth_le_nodes(n: Node)
    ensures
        1 <= depth_of(n) <= tree_nodes(n),
    decreases n,
{
    match n {
        Node::Leaf { .. } => {},
        Node::Branch { children, .. } => {
            lemma_depth_le_nodes_children(children@, 8);
        },
    }
}

proof fn lemma_depth_le_nodes_children(cs: Seq<Option<Node>>, k: int)
    ensures
        0 <= depth_children(cs, k) <= tn_children(cs, k),
    decreases cs, k,
{
    if 0 < k <= cs.len() {
        lemma_depth_le_nodes_children(cs, k - 1);
        match cs[k - 1] {
            Option::None => {},
            Option::Some(c) => {
                lemma_depth_le_nodes(c);
            },
        }
    }
}

/// One flattened node: where its cube sits and which points it carries.
pub struct FlatView {
    pub index: int,
    pub corner: Vec3,
    pub edge: i64,
    pub is_leaf: bool,
    pub pts: Seq<ComputedPoint>,
}

/// The flattened form of a subtree: children first in octant order, the
/// node itself last, indices assigned depth-first from `base`. A pure
/// function of the in-memory tree alone.
pub open spec fn flat_of(n: Node, corner: Vec3, edge: i64, base: int) -> Seq<FlatView>
    decreases n,
{
    match n {
        Node::Leaf { pts, .. } => seq![
            FlatView { index: base, corner, edge, is_leaf: true, pts: pts@ },
        ],
        Node::Branch { children, reps, .. } => {
            let cs = flat_children(children@, 8, corner, edge, base);
            cs.push(FlatView { index: base + cs.len(), corner, edge, is_leaf: false, pts: reps@ })
        },
    }
}

pub open spec fn flat_children(
    cs: Seq<Option<Node>>,
    k: int,
    corner: Vec3,
    edge: i64,
    base: int,
) -> Seq<FlatView>
    decreases cs, k,
{
    if k <= 0 || k > cs.len() {
        Seq::empty()
    } else {
        let pre = flat_children(cs, k - 1, corner, edge, base);
        pre + (match cs[k - 1] {
            Option::None => Seq::empty(),
            Option::Some(c) => flat_of(
                c,
                child_corner(corner, edge, k - 1),
                (edge / 2) as i64,
                base + pre.len(),
            ),
        })
    }
}

/// The flattened form holds one entry per node.
proof fn lemma_flat_len(n: Node, corner: Vec3, edge: i64, base: int)
    ensures
        flat_of(n, corner, edge, base).len() == tree_nodes(n),
    decreases n,
{
    match n {
        Node::Leaf { .. } => {},
        Node::Branch { children, .. } => {
            lemma_flat_len_children(children@, 8, corner, edge, base);
        },
    }
}

proof fn lemma_flat_len_children(cs: Seq<Option<Node>>, k: int, corner: Vec3, edge: i64, base: int)
    ensures
        flat_children(cs, k, corner, edge, base).len() == tn_children(cs, k),
    decreases cs, k,
{
    if 0 < k <= cs.len() {
        lemma_flat_len_children(cs, k - 1, corner, edge, base);
        match cs[k - 1] {
            Option::None => {},
            Option::Some(c) => {
                lemma_flat_len(
                    c,
                    child_corner(corner, edge, k - 1),
                    (edge / 2) as i64,
                    base + flat_children(cs, k - 1, corner, edge, base).len(),
                );
            },
        }
    }
}

/// Re-flattening changes nothing: the flattened form is a function of the
/// in-memory tree value alone, so two flattenings of an unmodified tree
/// are identical — with `Tree::flatten`'s contract, byte for byte.
pub proof fn lemma_flatten_repeatable(n1: Node, n2: Node, corner: Vec3, edge: i64, base: int)
    requires
        n1 == n2,
    ensures
        flat_of(n1, corner, edge, base) == flat_of(n2, corner, edge, base),
{
}


/// The persisted topology mirrors a subtree exactly: same cubes, the
/// depth-first indices, the segment lists of the leaves, and one child
/// slot per octant.
pub open spec fn index_matches(ix: IndexNode, n: Node, corner: Vec3, edge: i64, base: int) -> bool
    decreases n,
{
    &&& ix.position == corner
    &&& ix.size == edge
    &&& ix.index as int == base + tree_nodes(n) - 1
    &&& match n {
        Node::Leaf { pts, .. } => ix.data matches IndexData::Leaf { segments } && segments@
            == crate::point::seg_ids(pts@),
        Node::Branch { children, .. } => ix.data matches IndexData::Branch { children: ic }
            && ic@.len() == 8 && index_children_match(ic@, children@, 8, corner, edge, base),
    }
}

pub open spec fn index_children_match(
    ic: Seq<Option<IndexNode>>,
    cs: Seq<Option<Node>>,
    k: int,
    corner: Vec3,
    edge: i64,
    base: int,
) -> bool
    decreases cs, k,
{
    if k <= 0 || k > cs.len() || k > ic.len() {
        k <= 0
    } else {
        index_children_match(ic, cs, k - 1, corner, edge, base) && (match cs[k - 1] {
            Option::None => ic[k - 1] is None,
            Option::Some(c) => ic[k - 1] matches Option::Some(icn) && index_matches(
                icn,
                c,
                child_corner(corner, edge, k - 1),
                (edge / 2) as i64,
                base + tn_children(cs, k - 1),
            ),
        })
    }
}

/// A longer mirror list still matches on its old prefix.
proof fn lemma_index_children_push(
    ic1: Seq<Option<IndexNode>>,
    ic2: Seq<Option<IndexNode>>,
    cs: Seq<Option<Node>>,
    k: int,
    corner: Vec3,
    edge: i64,
    base: int,
)
    requires
        0 <= k <= ic1.len(),
        k <= ic2.len(),
        k <= cs.len(),
        forall|b: int| 0 <= b < k ==> ic1[b] == ic2[b],
        index_children_match(ic1, cs, k, corner, edge, base),
    ensures
        index_children_match(ic2, cs, k, corner, edge, base),
    decreases k,
{
    if k > 0 {
        lemma_index_children_push(ic1, ic2, cs, k - 1, corner, edge, base);
    }
}

/// One persisted node of the flattened container: its stable index, cube,
/// the segments present, the packed point records and the four packed
/// property streams.
pub struct FlatNode {
    pub index: u32,
    pub position: Vec3,
    pub size: i64,
    pub is_leaf: bool,
    pub segments: Vec<u32>,
    pub points: Vec<u8>,
    pub property_segment: Vec<u8>,
    pub property_height: Vec<u8>,
    pub property_slice: Vec<u8>,
    pub property_curve: Vec<u8>,
}

/// The whole flattened container, nodes in index order.
pub struct FlatTree {
    pub nodes: Vec<FlatNode>,
}

/// A persisted node carries exactly the data of one flattened view.
pub open spec fn node_matches(f: FlatNode, v: FlatView) -> bool {
    &&& f.index as int == v.index
    &&& f.position == v.corner
    &&& f.size as int == v.edge as int
    &&& f.is_leaf == v.is_leaf
    &&& f.segments@ == crate::point::seg_ids(v.pts)
    &&& f.points@ == crate::point::render_stream(v.pts)
    &&& f.property_segment@ == crate::point::prop_stream(v.pts, |p: ComputedPoint| crate::point::sel_segment(p))
    &&& f.property_height@ == crate::point::prop_stream(v.pts, |p: ComputedPoint| crate::point::sel_sub_index(p))
    &&& f.property_slice@ == crate::point::prop_stream(v.pts, |p: ComputedPoint| crate::point::sel_slice(p))
    &&& f.property_curve@ == crate::point::prop_stream(v.pts, |p: ComputedPoint| crate::point::sel_curve(p))
}

/// Emits the flattened form of a subtree onto `out`, depth first, and
/// returns the subtree's depth.
#[verifier::rlimit(100)]
#[verifier::spinoff_prover]
fn flatten_rec(n: &Node, corner: Vec3, edge: i64, cache: &mut Cache, out: &mut Vec<FlatNode>) -> (d: (
    u64,
    IndexNode,
))
    requires
        old(cache).wf(),
        wf_node(*n, old(cache)@, corner, edge),
        cube_wf(corner, edge),
        old(out)@.len() + tree_nodes(*n) <= 0xffff_ffff,
    ensures
        final(cache).wf(),
        final(cache)@ == old(cache)@,
        final(cache).spec_budget() == old(cache).spec_budget(),
        final(out)@.len() == old(out)@.len() + tree_nodes(*n),
        forall|i: int| 0 <= i < old(out)@.len() ==> final(out)@[i] == old(out)@[i],
        forall|i: int|
            old(out)@.len() <= i < final(out)@.len() ==> node_matches(
                #[trigger] final(out)@[i],
                flat_of(*n, corner, edge, old(out)@.len() as int)[i - old(out)@.len()],
            ),
        d.0 == depth_of(*n),
        index_matches(d.1, *n, corner, edge, old(out)@.len() as int),
    decreases edge,
{
    proof {
        lemma_flat_len(*n, corner, edge, old(out)@.len() as int);
    }
    match n {
        Node::Leaf { key, count, pts } => {
            let bytes = cache.read(*key);
            let items = decode_points(&bytes, Ghost(pts@));
            let enc = crate::point::encode_node_buffers(&items);
            let segs = copy_u32s(&enc.5);
            let idx: u32 = out.len() as u32;
            let ghost out0 = out@;
            out.push(
                FlatNode {
                    index: idx,
                    position: corner,
                    size: edge,
                    is_leaf: true,
                    segments: enc.5,
                    points: enc.0,
                    property_segment: enc.1,
                    property_height: enc.2,
                    property_slice: enc.3,
                    property_curve: enc.4,
                },
            );
            proof {
                assert(node_matches(
                    out@[out0.len() as int],
                    flat_of(*n, corner, edge, out0.len() as int)[0],
                ));
            }
            (
                1,
                IndexNode {
                    data: IndexData::Leaf { segments: segs },
                    position: corner,
                    size: edge,
                    index: idx,
                },
            )
        },
        Node::Branch { children, count, rep_key, rep_count, reps, routed } => {
            let ghost cs = children@;
            let ghost base = out@.len() as int;
            let mut dmax: u64 = 0;
            let mut kid_nodes: Vec<Option<IndexNode>> = Vec::new();
            let mut o: usize = 0;
            proof {
                assert(wf_node(*n, cache@, corner, edge));
                assert(cs.len() == 8);
                lemma_flat_len_children(cs, 8, corner, edge, base);
            }
            while o < 8
                invariant
                    o <= 8,
                    cs.len() == 8,
                    children@ == cs,
                    cache.wf(),
                    cache@ == old(cache)@,
                    cache.spec_budget() == old(cache).spec_budget(),
                    cube_wf(corner, edge),
                    wf_node(*n, cache@, corner, edge),
                    n is Branch,
                    cs == n->Branch_children@,
                    base == old(out)@.len() as int,
                    out@.len() == base + flat_children(cs, o as int, corner, edge, base).len(),
                    base + tn_children(cs, 8) + 1 <= 0xffff_ffff,
                    dmax <= 0xffff_ffff,
                    forall|i: int| 0 <= i < base ==> out@[i] == old(out)@[i],
                    forall|i: int|
                        base <= i < out@.len() ==> node_matches(
                            #[trigger] out@[i],
                            flat_children(cs, o as int, corner, edge, base)[i - base],
                        ),
                    dmax == depth_children(cs, o as int),
                    kid_nodes@.len() == o,
                    index_children_match(kid_nodes@, cs, o as int, corner, edge, base),
                decreases 8 - o,
            {
                let ghost oi = o as int;
                let ghost pre = flat_children(cs, oi, corner, edge, base);
                proof {
                    assert(children@.len() == 8);
                    lemma_wf_children_index(cs, 8, cache@, corner, edge, oi);
                    lemma_child_cube_wf(corner, edge, oi);
                    lemma_flat_len_children(cs, oi, corner, edge, base);
                    lemma_flat_len_children(cs, oi + 1, corner, edge, base);
                    lemma_tn_mono(cs, oi + 1, 8);
                    lemma_tn_mono(cs, oi, oi + 1);
                }
                let half: i64 = edge / 2;
                let cc = child_corner_exec(corner, edge, o);
                match &children[o] {
                    Option::None => {
                        let ghost kn0 = kid_nodes@;
                        kid_nodes.push(None);
                        proof {
                            assert(flat_children(cs, oi + 1, corner, edge, base) =~= pre);
                            assert(depth_children(cs, oi + 1) == depth_children(cs, oi));
                            lemma_index_children_push(
                                kn0,
                                kid_nodes@,
                                cs,
                                oi,
                                corner,
                                edge,
                                base,
                            );
                        }
                    },
                    Option::Some(c) => {
                        proof {
                            assert(cs[oi] == Some(*c));
                            assert(tn_children(cs, oi + 1) == tn_children(cs, oi) + tree_nodes(
                                *c,
                            ));
                            lemma_depth_le_nodes(*c);
                        }
                        let dc = flatten_rec(c, cc, half, cache, out);
                        let ghost kn0 = kid_nodes@;
                        kid_nodes.push(Some(dc.1));
                        if dc.0 > dmax {
                            dmax = dc.0;
                        }
                        proof {
                            lemma_index_children_push(
                                kn0,
                                kid_nodes@,
                                cs,
                                oi,
                                corner,
                                edge,
                                base,
                            );
                        }
                        proof {
                            assert(flat_children(cs, oi + 1, corner, edge, base) =~= pre + flat_of(
                                *c,
                                child_corner(corner, edge, oi),
                                (edge / 2) as i64,
                                base + pre.len(),
                            ));
                            assert(depth_children(cs, oi + 1) == (if depth_of(*c)
                                > depth_children(cs, oi) {
                                depth_of(*c)
                            } else {
                                depth_children(cs, oi)
                            }));
                        }
                    },
                }
                o = o + 1;
            }
            let bytes = cache.read(*rep_key);
            let items = decode_points(&bytes, Ghost(reps@));
            let enc = crate::point::encode_node_buffers(&items);
            let segs = copy_u32s(&enc.5);
            let idx: u32 = out.len() as u32;
            let ghost out1 = out@;
            out.push(
                FlatNode {
                    index: idx,
                    position: corner,
                    size: edge,
                    is_leaf: false,
                    segments: enc.5,
                    points: enc.0,
                    property_segment: enc.1,
                    property_height: enc.2,
                    property_slice: enc.3,
                    property_curve: enc.4,
                },
            );
            proof {
                let whole = flat_of(*n, corner, edge, base);
                assert(whole =~= flat_children(cs, 8, corner, edge, base).push(
                    FlatView {
                        index: base + flat_children(cs, 8, corner, edge, base).len(),
                        corner,
                        edge,
                        is_leaf: false,
                        pts: reps@,
                    },
                ));
                assert forall|i: int| base <= i < out@.len() implies node_matches(
                    #[trigger] out@[i],
                    whole[i - base],
                ) by {
                    if i < out1.len() {
                        assert(out@[i] == out1[i]);
                        assert(whole[i - base] == flat_children(cs, 8, corner, edge, base)[i
                            - base]);
                    }
                }
            }
            (
                dmax + 1,
                IndexNode {
                    data: IndexData::Branch { children: kid_nodes },
                    position: corner,
                    size: edge,
                    index: idx,
                },
            )
        },
    }
}

/// Copies a list of 32-bit values.
fn copy_u32s(src: &Vec<u32>) -> (r: Vec<u32>)
    ensures
        r@ == src@,
{
    let n: usize = src.len();
    let mut r: Vec<u32> = Vec::new();
    let mut i: usize = 0;
    while i < n
        invariant
            i <= n,
            n == src@.len(),
            r@ == src@.take(i as int),
        decreases n - i,
    {
        r.push(src[i]);
        proof {
            assert(r@ =~= src@.take(i as int + 1));
        }
        i = i + 1;
    }
    proof {
        assert(r@ =~= src@);
    }
    r
}

/// The hardest prefix monotonicity of the node tally.
proof fn lemma_tn_mono(cs: Seq<Option<Node>>, k1: int, k2: int)
    requires
        0 <= k1 <= k2,
        k2 <= cs.len() <= 8,
    ensures
        tn_children(cs, k1) <= tn_children(cs, k2),
        tn_children(cs, k1) >= 0,
    decreases k2 - k1,
{
    lemma_tn_nonneg(cs, k1);
    if k1 < k2 {
        lemma_tn_mono(cs, k1 + 1, k2);
        match cs[k1] {
            Option::None => {},
            Option::Some(c) => {
                lemma_tn_pos(c);
            },
        }
    }
}

proof fn lemma_tn_nonneg(cs: Seq<Option<Node>>, k: int)
    ensures
        tn_children(cs, k) >= 0,
    decreases cs, k,
{
    if 0 < k <= cs.len() {
        lemma_tn_nonneg(cs, k - 1);
        match cs[k - 1] {
            Option::None => {},
            Option::Some(c) => {
                lemma_tn_pos(c);
            },
        }
    }
}

proof fn lemma_tn_pos(n: Node)
    ensures
        tree_nodes(n) >= 1,
    decreases n,
{
    match n {
        Node::Leaf { .. } => {},
        Node::Branch { children, .. } => {
            lemma_tn_nonneg(children@, 8);
        },
    }
}


/// The level-of-detail octree under construction.
pub struct Tree {
    root: Node,
    corner: Vec3,
    edge: i64,
    next_key: u64,
    node_count: u64,
    lod_scale: u32,
}

impl Tree {
    /// Structural invariant against the cache contents.
    pub closed spec fn wf(self, cm: Map<u64, Seq<u8>>) -> bool {
        &&& cube_wf(self.corner, self.edge)
        &&& wf_node(self.root, cm, self.corner, self.edge)
        &&& keys_below(self.root, self.next_key)
        &&& self.node_count as int == tree_nodes(self.root)
        &&& self.node_count <= self.next_key
        &&& self.lod_scale <= 1000
    }

    /// Points inserted so far.
    pub closed spec fn spec_count(self) -> int {
        count_field(self.root)
    }

    /// The multiset of all points held by the leaves.
    pub closed spec fn spec_points(self) -> Multiset<ComputedPoint> {
        points_mset(self.root)
    }

    /// Nodes of the hierarchy.
    pub closed spec fn spec_nodes(self) -> int {
        tree_nodes(self.root)
    }

    pub closed spec fn spec_corner(self) -> Vec3 {
        self.corner
    }

    pub closed spec fn spec_edge(self) -> i64 {
        self.edge
    }

    pub closed spec fn spec_next_key(self) -> u64 {
        self.next_key
    }

    pub closed spec fn spec_root(self) -> Node {
        self.root
    }

    /// A fresh tree over the cube at `corner` spanning at least `size`,
    /// rounded up to a power of two.
    pub fn new(corner: Vec3, size: i64, lod_scale: u32, cache: &mut Cache) -> (r: Tree)
        requires
            old(cache).wf(),
            1 <= size <= 0x1000_0000_0000,
            -0x1000_0000_0000 <= corner.x <= 0x1000_0000_0000,
            -0x1000_0000_0000 <= corner.y <= 0x1000_0000_0000,
            -0x1000_0000_0000 <= corner.z <= 0x1000_0000_0000,
            lod_scale <= 1000,
        ensures
            final(cache).wf(),
            final(cache).spec_budget() == old(cache).spec_budget(),
            r.wf(final(cache)@),
            r.spec_count() == 0,
            r.spec_points() == Multiset::<ComputedPoint>::empty(),
            r.spec_nodes() == 1,
            r.spec_corner() == corner,
            size <= r.spec_edge(),
            r.spec_next_key() == 1,
    {
        let mut edge: i64 = 1;
        while edge < size
            invariant
                1 <= edge,
                is_pow2(edge as int),
                edge < size ==> edge <= size,
                edge <= 0x2000_0000_0000,
                size <= 0x1000_0000_0000,
            decreases 2 * size - edge,
        {
            proof {
                assert(is_pow2(2 * edge as int));
            }
            edge = edge * 2;
        }
        cache.clear(0);
        proof {
            assert(points_bytes(Seq::<ComputedPoint>::empty()) =~= Seq::<u8>::empty());
            lemma_seq_empty_mset(Seq::<ComputedPoint>::empty());
        }
        Tree {
            root: Node::Leaf { key: 0, count: 0, pts: Ghost(Seq::empty()) },
            corner,
            edge,
            next_key: 1,
            node_count: 1,
            lod_scale,
        }
    }

    /// Points inserted so far.
    pub fn count(&self) -> (r: u64)
        ensures
            r as int == self.spec_count(),
    {
        match &self.root {
            Node::Branch { count, .. } => *count,
            Node::Leaf { count, .. } => *count,
        }
    }

    /// Inserts one computed point. The count grows by one, the cube and
    /// configuration stay, and whatever splitting and spilling happened,
    /// the structure stays well formed against the cache.
    pub fn insert(&mut self, p: ComputedPoint, cache: &mut Cache)
        requires
            old(cache).wf(),
            old(self).wf(old(cache)@),
            in_cube(p.position, old(self).spec_corner(), old(self).spec_edge()),
            p.wf(),
            old(self).spec_count() < MAX_TREE_POINTS,
            old(self).spec_next_key() as int + 16 * (old(self).spec_edge() as int) + 8
                <= 0x1000_0000_0000_0000,
        ensures
            final(cache).wf(),
            final(cache).spec_budget() == old(cache).spec_budget(),
            final(self).wf(final(cache)@),
            final(self).spec_count() == old(self).spec_count() + 1,
            final(self).spec_points() == old(self).spec_points().insert(p),
            final(self).spec_corner() == old(self).spec_corner(),
            final(self).spec_edge() == old(self).spec_edge(),
            final(self).spec_next_key() as int <= old(self).spec_next_key() as int + 16 * (old(
                self,
            ).spec_edge() as int) + 8,
    {
        let mut tmp: Node = Node::Leaf { key: 0, count: 0, pts: Ghost(Seq::empty()) };
        core::mem::swap(&mut tmp, &mut self.root);
        let mut nk: u64 = self.next_key;
        let rec = insert_node(tmp, self.corner, self.edge, p, self.lod_scale, cache, &mut nk);
        self.root = rec.0;
        self.next_key = nk;
        self.node_count = self.node_count + rec.1;
    }

    /// Flattens the finished tree into the persisted container: one entry
    /// per node in depth-first order, each holding exactly the packed
    /// records of its buffered points, plus the project aggregate carrying
    /// the given name, property table and per-segment metadata. The cache
    /// contents are left untouched, so flattening an unmodified tree again
    /// yields a byte-identical container.
    pub fn flatten(
        &self,
        name: String,
        properties: Vec<(String, String, u32)>,
        segment_information: Vec<String>,
        segment_values: Vec<Value>,
        cache: &mut Cache,
    ) -> (r: (FlatTree, Project))
        requires
            old(cache).wf(),
            self.wf(old(cache)@),
            self.spec_nodes() + 1 <= 0xffff_ffff,
        ensures
            final(cache).wf(),
            final(cache)@ == old(cache)@,
            final(cache).spec_budget() == old(cache).spec_budget(),
            r.0.nodes@.len() == self.spec_nodes(),
            forall|i: int|
                0 <= i < r.0.nodes@.len() ==> node_matches(
                    #[trigger] r.0.nodes@[i],
                    flat_of(self.spec_root(), self.spec_corner(), self.spec_edge(), 0)[i],
                ),
            r.1.name == name,
            r.1.properties == properties,
            r.1.segment_information == segment_information,
            r.1.segment_values == segment_values,
            r.1.depth as int == depth_of(self.spec_root()),
            index_matches(r.1.root, self.spec_root(), self.spec_corner(), self.spec_edge(), 0),
            r.1.root.index as int == self.spec_nodes() - 1,
    {
        let mut out: Vec<FlatNode> = Vec::new();
        proof {
            lemma_tn_pos(self.root);
            lemma_depth_le_nodes(self.root);
        }
        let rec = flatten_rec(&self.root, self.corner, self.edge, cache, &mut out);
        let project = Project {
            name,
            depth: rec.0 as u32,
            root: rec.1,
            properties,
            segment_information,
            segment_values,
        };
        (FlatTree { nodes: out }, project)
    }
}

} // verus!
