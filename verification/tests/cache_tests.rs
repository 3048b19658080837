use treee::cache::Cache;

fn bytes(vals: &[u8]) -> Vec<u8> {
    vals.to_vec()
}

#[test]
fn empty_cache_creates_empty_buffers() {
    let mut cache = Cache::new(1024);
    let handle = cache.get_or_create(7);
    assert_eq!(handle, 7);
    let read = cache.read(7);
    assert_eq!(read, Vec::<u8>::new());
}

#[test]
fn append_then_read_returns_written_bytes() {
    let mut cache = Cache::new(1024);
    cache.append(1, &bytes(&[1, 2, 3]));
    cache.append(1, &bytes(&[4, 5]));
    assert_eq!(cache.read(1), vec![1, 2, 3, 4, 5]);
}

#[test]
fn round_trip_under_tight_budget_with_eviction() {
    // a budget far below the written volume forces spilling; every buffer
    // must still read back exactly, in any order
    let mut cache = Cache::new(16);
    let mut expected: Vec<Vec<u8>> = Vec::new();
    for key in 0..24u64 {
        let mut buf: Vec<u8> = Vec::new();
        for j in 0..10u8 {
            buf.push((key as u8).wrapping_mul(7).wrapping_add(j));
        }
        cache.append(key, &buf);
        expected.push(buf);
    }
    // scrambled read order
    let order = [13u64, 2, 23, 0, 7, 19, 5, 11, 3, 17, 21, 1, 9, 15, 4, 22, 6, 8, 10, 12, 14, 16,
        18, 20];
    for &key in order.iter() {
        assert_eq!(cache.read(key), expected[key as usize]);
    }
    // a second pass still agrees after all the reloading
    for key in 0..24u64 {
        assert_eq!(cache.read(key), expected[key as usize]);
    }
}

#[test]
fn clear_empties_a_buffer() {
    let mut cache = Cache::new(64);
    cache.append(3, &bytes(&[9, 9, 9]));
    cache.clear(3);
    assert_eq!(cache.read(3), Vec::<u8>::new());
    cache.append(3, &bytes(&[1]));
    assert_eq!(cache.read(3), vec![1]);
}

#[test]
fn interleaved_appends_stay_separate() {
    let mut cache = Cache::new(8);
    for round in 0..5u8 {
        cache.append(100, &bytes(&[round]));
        cache.append(200, &bytes(&[100 + round]));
    }
    assert_eq!(cache.read(100), vec![0, 1, 2, 3, 4]);
    assert_eq!(cache.read(200), vec![100, 101, 102, 103, 104]);
}
