use treee::calculations::{calculate, map_to_u32, SegmentInformation};
use treee::neighbors::NeighborsTree;
use treee::point::{ComputedPoint, NORMAL_UNIT};
use treee::project::Value;
use treee::{Settings, Vec3};

fn norm_sq(p: &ComputedPoint) -> i64 {
    p.normal.x * p.normal.x + p.normal.y * p.normal.y + p.normal.z * p.normal.z
}

#[test]
fn map_to_u32_spans_the_domain() {
    assert_eq!(map_to_u32(0, 10), 0);
    assert_eq!(map_to_u32(10, 10), u32::MAX);
    assert_eq!(map_to_u32(1, 3), 1_431_655_765);
}

#[test]
fn neighbors_are_sorted_and_exact() {
    let pts = vec![
        Vec3::new(0, 0, 0),
        Vec3::new(100, 0, 0),
        Vec3::new(0, 50, 0),
        Vec3::new(5000, 0, 0),
    ];
    let tree = NeighborsTree::new(&pts);
    let nbrs = tree.get(Vec3::new(0, 0, 0), 3, 1_000_000);
    assert_eq!(nbrs, vec![(0, 0), (2500, 2), (10_000, 1)]);
}

#[test]
fn neighbors_respect_count_and_cutoff() {
    let pts = vec![
        Vec3::new(0, 0, 0),
        Vec3::new(10, 0, 0),
        Vec3::new(20, 0, 0),
        Vec3::new(30, 0, 0),
    ];
    let tree = NeighborsTree::new(&pts);
    let two = tree.get(Vec3::new(0, 0, 0), 2, 1_000_000);
    assert_eq!(two.len(), 2);
    let close = tree.get(Vec3::new(0, 0, 0), 4, 150);
    assert_eq!(close, vec![(0, 0), (100, 1)]);
}

#[test]
fn planar_disc_has_zero_curvature_and_vertical_normal() {
    // a flat grid in the horizontal plane
    let mut data: Vec<Vec3> = Vec::new();
    for i in 0..5i64 {
        for j in 0..5i64 {
            data.push(Vec3::new(i * 100, 0, j * 100));
        }
    }
    let (points, _info) = calculate(data, 1, &Settings::default());
    for p in points.iter() {
        assert_eq!(p.curve, 0);
        assert_eq!(p.normal.x, 0);
        assert_eq!(p.normal.z, 0);
        assert_eq!(p.normal.y.abs(), NORMAL_UNIT);
    }
}

#[test]
fn spherical_neighborhood_has_maximal_curvature() {
    // six axis points around a center: an isotropic covariance
    let r = 700i64;
    let data = vec![
        Vec3::new(0, 0, 0),
        Vec3::new(r, 0, 0),
        Vec3::new(-r, 0, 0),
        Vec3::new(0, r, 0),
        Vec3::new(0, -r, 0),
        Vec3::new(0, 0, r),
        Vec3::new(0, 0, -r),
    ];
    let (points, _info) = calculate(data, 1, &Settings::default());
    assert_eq!(points[0].curve, u32::MAX);
}

#[test]
fn normals_are_unit_length_within_tolerance() {
    let mut data: Vec<Vec3> = Vec::new();
    for i in 0..40i64 {
        data.push(Vec3::new(i * 37 % 500, i * 91 % 700, i * 53 % 300));
    }
    let (points, _info) = calculate(data, 2, &Settings::default());
    let unit_sq = (NORMAL_UNIT as i64) * (NORMAL_UNIT as i64);
    // one ten-thousandth relative tolerance on the length
    let lo = unit_sq - 858_994;
    let hi = unit_sq + 858_994;
    for p in points.iter() {
        let q = norm_sq(p);
        assert!(lo <= q && q <= hi);
        assert!(p.size >= 1);
        assert_eq!(p.segment, 2);
    }
}

#[test]
fn trunk_and_crown_partition_the_height() {
    // narrow stem below, wide crown above
    let mut data: Vec<Vec3> = Vec::new();
    for i in 0..40i64 {
        data.push(Vec3::new(i % 2 * 10, i * 25, 0));
    }
    for i in 0..60i64 {
        data.push(Vec3::new(i % 10 * 90, 1000 + i * 10, i / 10 * 90));
    }
    let (_points, info) = calculate(data, 1, &Settings::default());
    let (ta, tp) = match info.trunk_height {
        Value::RelativeHeight { absolute, percent } => (absolute, percent),
        _ => panic!("trunk height shape"),
    };
    let (ca, cp) = match info.crown_height {
        Value::RelativeHeight { absolute, percent } => (absolute, percent),
        _ => panic!("crown height shape"),
    };
    // the two parts cover the height exactly; the shares sum to the whole
    assert_eq!(ta + ca, 1590);
    assert_eq!(tp + cp, 1_000_000);
    assert!(tp <= 1_000_000 && cp <= 1_000_000);
    assert!(ta >= 0 && ca >= 0);
}

#[test]
fn flat_segment_has_zero_height_split() {
    let data = vec![Vec3::new(0, 50, 0), Vec3::new(100, 50, 0), Vec3::new(0, 50, 100)];
    let (_points, info) = calculate(data, 1, &Settings::default());
    let SegmentInformation { trunk_height, crown_height } = info;
    match (trunk_height, crown_height) {
        (
            Value::RelativeHeight { absolute: ta, percent: tp },
            Value::RelativeHeight { absolute: ca, percent: cp },
        ) => {
            assert_eq!(ta, 0);
            assert_eq!(ca, 0);
            assert_eq!(tp, 0);
            assert_eq!(cp, 1_000_000);
        },
        _ => panic!("height shape"),
    }
}
