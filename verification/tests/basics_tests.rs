use treee::cache::Cache;
use treee::clock::Time;
use treee::codec::{push_i64, push_u32, push_u64, read_i64, read_u32, read_u64};
use treee::input::MouseButton;
use treee::project::{Project, Value};
use treee::{check_thread_count, Error, Settings};

#[test]
fn scalar_codec_round_trips() {
    let mut buf: Vec<u8> = Vec::new();
    push_u32(&mut buf, 0xdead_beef);
    push_u64(&mut buf, 0x0123_4567_89ab_cdef);
    push_i64(&mut buf, -42);
    assert_eq!(buf.len(), 20);
    assert_eq!(read_u32(&buf, 0), 0xdead_beef);
    assert_eq!(read_u64(&buf, 4), 0x0123_4567_89ab_cdef);
    assert_eq!(read_i64(&buf, 12), -42);
    assert_eq!(buf[0], 0xef);
}

#[test]
fn thread_count_of_one_is_rejected() {
    assert_eq!(check_thread_count(0), Ok(()));
    assert_eq!(check_thread_count(1), Err(Error::NotEnoughThreads));
    assert_eq!(check_thread_count(2), Ok(()));
    assert_eq!(check_thread_count(64), Ok(()));
}

#[test]
fn error_messages_match_the_report() {
    assert_eq!(Error::NoInputFile.message(), "No input file");
    assert_eq!(Error::OutputFolderIsFile.message(), "Output folder is file");
    assert_eq!(Error::OutputFolderIsNotEmpty.message(), "Output folder is not empty");
    assert_eq!(Error::NotEnoughThreads.message(), "Atleast two Threads are required");
}

#[test]
fn default_settings_match_the_documented_values() {
    let s = Settings::default();
    assert_eq!(s.min_segment_size, 100);
    assert_eq!(s.segmenting_slice_width, 1000);
    assert_eq!(s.segmenting_max_distance, 1000);
    assert_eq!(s.neighbors_count, 31);
    assert_eq!(s.neighbors_max_distance, 1000);
    assert_eq!(s.lod_size_scale, 950);
}

#[test]
fn empty_project_has_placeholder_shape() {
    let p = Project::empty();
    assert_eq!(p.name, "No Project loaded");
    assert_eq!(p.depth, 0);
    assert_eq!(p.properties.len(), 1);
    assert_eq!(p.segment_values.len(), 0);
}

#[test]
fn segment_rows_select_by_one_based_index() {
    let mut p = Project::empty();
    p.segment_information = vec![String::from("Trunk"), String::from("Crown")];
    p.segment_values = vec![
        Value::Percent(1),
        Value::Percent(2),
        Value::Percent(3),
        Value::Percent(4),
    ];
    assert_eq!(p.segment(1), vec![Value::Percent(1), Value::Percent(2)]);
    assert_eq!(p.segment(2), vec![Value::Percent(3), Value::Percent(4)]);
}

#[test]
fn clock_moves_forward() {
    let mut t = Time::new();
    let a = t.elapsed();
    let b = t.elapsed();
    assert!(a.as_nanos() < u128::MAX);
    assert!(b.as_nanos() < u128::MAX);
}

#[test]
fn mouse_buttons_compare() {
    assert_eq!(MouseButton::Left, MouseButton::Left);
    assert_ne!(MouseButton::Left, MouseButton::Right);
}

#[test]
fn zero_budget_cache_still_round_trips() {
    let mut cache = Cache::new(0);
    cache.append(1, &vec![7, 8, 9]);
    assert_eq!(cache.read(1), vec![7, 8, 9]);
}
