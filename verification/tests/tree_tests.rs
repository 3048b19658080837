use treee::cache::Cache;
use treee::point::{ComputedPoint, NORMAL_UNIT};
use treee::project::{Value, MAX_LEAF_SIZE};
use treee::tree::{FlatTree, Tree};
use treee::Vec3;

fn point_at(x: i64, y: i64, z: i64, segment: u32) -> ComputedPoint {
    ComputedPoint {
        position: Vec3::new(x, y, z),
        normal: Vec3::new(0, NORMAL_UNIT, 0),
        size: 1,
        segment,
        slice: 0,
        sub_index: 0,
        curve: 0,
    }
}

const RENDER_RECORD_SIZE: usize = 56;

fn leaf_point_total(flat: &FlatTree) -> usize {
    let mut total = 0;
    for n in flat.nodes.iter() {
        if n.is_leaf {
            assert_eq!(n.points.len() % RENDER_RECORD_SIZE, 0);
            total += n.points.len() / RENDER_RECORD_SIZE;
        }
    }
    total
}

#[test]
fn single_leaf_round_trip() {
    let mut cache = Cache::new(1 << 20);
    let mut tree = Tree::new(Vec3::new(0, 0, 0), 1000, 950, &mut cache);
    tree.insert(point_at(1, 2, 3, 1), &mut cache);
    tree.insert(point_at(500, 600, 700, 2), &mut cache);
    assert_eq!(tree.count(), 2);
    let (flat, project) = tree.flatten(
        String::from("scan"),
        vec![(String::from("segment"), String::from("Segment"), 2u32)],
        vec![String::from("Trunk"), String::from("Crown")],
        vec![
            Value::RelativeHeight { absolute: 5, percent: 500_000 },
            Value::RelativeHeight { absolute: 5, percent: 500_000 },
        ],
        &mut cache,
    );
    assert_eq!(flat.nodes.len(), 1);
    assert_eq!(project.name, "scan");
    assert_eq!(project.depth, 1);
    assert_eq!(project.root.index, 0);
    let node = &flat.nodes[0];
    assert!(node.is_leaf);
    assert_eq!(node.index, 0);
    assert_eq!(node.points.len(), 2 * RENDER_RECORD_SIZE);
    assert_eq!(node.segments, vec![1, 2]);
    assert_eq!(node.property_segment.len(), 8);
}

#[test]
fn leaves_respect_capacity_and_counts_add_up() {
    // enough points to force a split
    let mut cache = Cache::new(1 << 22);
    let mut tree = Tree::new(Vec3::new(0, 0, 0), 1 << 12, 950, &mut cache);
    let total = MAX_LEAF_SIZE + 5;
    for i in 0..total {
        let x = (i % 64) as i64 * 4;
        let y = ((i / 64) % 64) as i64 * 4;
        let z = (i / 4096) as i64 * 4;
        tree.insert(point_at(x, y, z, 1), &mut cache);
    }
    assert_eq!(tree.count() as usize, total);
    let (flat, project) = tree.flatten(
        String::from("big"),
        Vec::new(),
        Vec::new(),
        Vec::new(),
        &mut cache,
    );
    assert!(project.depth >= 2);
    // every leaf holds at most the capacity; together they hold exactly
    // what was inserted
    for n in flat.nodes.iter() {
        if n.is_leaf {
            assert!(n.points.len() / RENDER_RECORD_SIZE <= MAX_LEAF_SIZE);
        }
    }
    assert_eq!(leaf_point_total(&flat), total);
    // the root keeps a down-sampled representative subset
    let root = flat.nodes.last().unwrap();
    assert!(!root.is_leaf);
    assert!(root.points.len() > 0);
    assert!(root.points.len() / RENDER_RECORD_SIZE < total);
}

#[test]
fn reflatten_is_byte_identical() {
    let mut cache = Cache::new(256);
    let mut tree = Tree::new(Vec3::new(-512, -512, -512), 1024, 900, &mut cache);
    for i in 0..300i64 {
        tree.insert(point_at(i - 150, (i * 7) % 400 - 200, (i * 13) % 500 - 250, 1 + (i % 3) as u32), &mut cache);
    }
    let args = || {
        (
            String::from("twice"),
            vec![(String::from("curve"), String::from("Curvature"), u32::MAX)],
            vec![String::from("Trunk")],
            vec![Value::Percent(250_000)],
        )
    };
    let (a0, a1, a2, a3) = args();
    let (flat_a, proj_a) = tree.flatten(a0, a1, a2, a3, &mut cache);
    let (b0, b1, b2, b3) = args();
    let (flat_b, proj_b) = tree.flatten(b0, b1, b2, b3, &mut cache);
    assert_eq!(flat_a.nodes.len(), flat_b.nodes.len());
    for (x, y) in flat_a.nodes.iter().zip(flat_b.nodes.iter()) {
        assert_eq!(x.index, y.index);
        assert_eq!(x.position, y.position);
        assert_eq!(x.size, y.size);
        assert_eq!(x.is_leaf, y.is_leaf);
        assert_eq!(x.segments, y.segments);
        assert_eq!(x.points, y.points);
        assert_eq!(x.property_segment, y.property_segment);
        assert_eq!(x.property_height, y.property_height);
        assert_eq!(x.property_slice, y.property_slice);
        assert_eq!(x.property_curve, y.property_curve);
    }
    assert_eq!(proj_a.name, proj_b.name);
    assert_eq!(proj_a.depth, proj_b.depth);
    assert_eq!(proj_a.root.index, proj_b.root.index);
}
