use treee::segmenter::Segmenter;
use treee::{Settings, Vec3};

fn settings() -> Settings {
    Settings::default()
}

#[test]
fn lone_cluster_forms_one_segment() {
    let mut seg = Segmenter::new(0, &settings());
    for i in 0..120i64 {
        seg.add_point(Vec3::new(i % 10 * 20, 0, i / 10 * 20));
    }
    let segments = seg.segments();
    assert_eq!(segments.len(), 1);
    assert_eq!(segments.into_iter().next().unwrap().points().len(), 120);
}

#[test]
fn small_cluster_is_dropped_large_one_kept() {
    // a dense cluster of 150 points within 0.3 m, and an isolated cluster
    // of 50 points ten meters away: exactly one segment of 150 points
    let mut seg = Segmenter::new(0, &settings());
    for i in 0..150i64 {
        seg.add_point(Vec3::new(i % 15 * 20, 0, i / 15 * 20));
    }
    for i in 0..50i64 {
        seg.add_point(Vec3::new(10_000 + i % 10 * 20, 0, i / 10 * 20));
    }
    let segments = seg.segments();
    assert_eq!(segments.len(), 1);
    let only = segments.into_iter().next().unwrap();
    assert_eq!(only.id(), 1);
    assert_eq!(only.points().len(), 150);
}

#[test]
fn membership_is_stable_across_runs() {
    let mut stream: Vec<Vec3> = Vec::new();
    for i in 0..150i64 {
        stream.push(Vec3::new(i % 15 * 20, i % 3 * 10, i / 15 * 20));
    }
    for i in 0..50i64 {
        stream.push(Vec3::new(10_000 + i % 10 * 20, 0, i / 10 * 20));
    }
    let run = |points: &Vec<Vec3>| -> Vec<(u32, Vec<Vec3>)> {
        let mut seg = Segmenter::new(0, &settings());
        for p in points.iter() {
            seg.add_point(*p);
        }
        seg.segments().into_iter().map(|s| (s.id(), s.points())).collect()
    };
    let a = run(&stream);
    let b = run(&stream);
    assert_eq!(a.len(), b.len());
    for (x, y) in a.iter().zip(b.iter()) {
        assert_eq!(x.0, y.0);
        assert_eq!(x.1, y.1);
    }
}

#[test]
fn two_far_clusters_get_distinct_dense_ids() {
    let mut seg = Segmenter::new(0, &settings());
    for i in 0..120i64 {
        seg.add_point(Vec3::new(i * 5, 0, 0));
    }
    for i in 0..110i64 {
        seg.add_point(Vec3::new(50_000 + i * 5, 0, 0));
    }
    let segments = seg.segments();
    assert_eq!(segments.len(), 2);
    let ids: Vec<u32> = segments.iter().map(|s| s.id()).collect();
    assert_eq!(ids, vec![1, 2]);
}

#[test]
fn merge_through_late_bridge_point() {
    // two nearby groups plus a bridge point joining them at the end
    let mut seg = Segmenter::new(0, &settings());
    for i in 0..60i64 {
        seg.add_point(Vec3::new(i * 10, 0, 0));
    }
    for i in 0..60i64 {
        seg.add_point(Vec3::new(1800 + i * 10, 0, 0));
    }
    // without the bridge these stay separate (gap 1200 > 1000) and both
    // fall under the minimum size of 100
    seg.add_point(Vec3::new(1200, 0, 0));
    let segments = seg.segments();
    assert_eq!(segments.len(), 1);
    assert_eq!(segments.into_iter().next().unwrap().points().len(), 121);
}
