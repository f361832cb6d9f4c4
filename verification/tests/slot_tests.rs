use billion_rows::accumulate::slow_process;
use billion_rows::custom_map::CustomMap;
use billion_rows::data_slice::calculate_data_slice;
use billion_rows::record::Record;

/// Every item a walk of the table yields, as (name, count, min, max, sum).
fn items(map: &CustomMap) -> Vec<(Vec<u8>, u32, i32, i32, i32)> {
    let mut out = Vec::new();
    let mut it = map.iter();
    while let Some((name, r)) = it.next() {
        out.push((name.to_vec(), r.count, r.min, r.max, r.sum));
    }
    assert!(it.next().is_none());
    out
}

fn repeated_line(times: usize) -> Vec<u8> {
    let mut data = Vec::new();
    for _ in 0..times {
        data.extend_from_slice(b"a;1.0\n");
    }
    data
}

#[test]
fn slice_of_one_station_holds_one_slot() {
    let data = repeated_line(200);
    let map = calculate_data_slice(&data, 0, 1188);
    assert_eq!(items(&map), vec![(b"a".to_vec(), 199, 10, 10, 1990)]);
}

#[test]
fn slice_starting_on_a_line_skips_that_line() {
    let data = repeated_line(200);
    let map = calculate_data_slice(&data, 6, 1188);
    assert_eq!(items(&map), vec![(b"a".to_vec(), 197, 10, 10, 1970)]);
}

#[test]
fn slow_process_two_stations_two_slots() {
    let data = b"ab;-12.3\ncd;4.5\nab;0.7\n".to_vec();
    let mut map = CustomMap::new(&data);
    slow_process(&data, 0, 16, &mut map);
    let mut got = items(&map);
    got.sort();
    assert_eq!(got, vec![(b"ab".to_vec(), 2, -123, 7, -116), (b"cd".to_vec(), 1, 45, 45, 45)]);
}

#[test]
fn slow_process_long_name_one_slot() {
    let data = b"abcdefghijklmnopq;1.0\nabcdefghijklmnopq;3.0\n".to_vec();
    let mut map = CustomMap::new(&data);
    slow_process(&data, 0, 22, &mut map);
    assert_eq!(items(&map), vec![(b"abcdefghijklmnopq".to_vec(), 2, 10, 30, 40)]);
}

#[test]
fn slow_process_keeps_existing_slots() {
    let data = b"ab;1.0\ncd;2.0\nab;3.0\n".to_vec();
    let mut map = CustomMap::new(&data);
    slow_process(&data, 0, 0, &mut map);
    let before = items(&map);
    assert_eq!(before, vec![(b"ab".to_vec(), 1, 10, 10, 10)]);
    slow_process(&data, 7, 14, &mut map);
    let mut after = items(&map);
    after.sort();
    assert_eq!(after, vec![(b"ab".to_vec(), 2, 10, 30, 40), (b"cd".to_vec(), 1, 20, 20, 20)]);
}

#[test]
fn slow_process_split_at_a_line_gives_the_same_totals() {
    let data = b"ab;1.0\ncd;-2.5\nab;3.0\nef;0.4\ncd;7.7\n".to_vec();
    let mut whole = CustomMap::new(&data);
    slow_process(&data, 0, 30, &mut whole);
    let mut split = CustomMap::new(&data);
    slow_process(&data, 0, 10, &mut split);
    slow_process(&data, 15, 30, &mut split);
    let mut a = items(&whole);
    let mut b = items(&split);
    a.sort();
    b.sort();
    assert_eq!(a, b);
    assert_eq!(a.len(), 3);
}

#[test]
fn sixteen_byte_name_may_take_two_slots() {
    let mut data = Vec::new();
    for _ in 0..40 {
        data.extend_from_slice(b"abcdefghijklmnop;1.0\n");
    }
    data.extend_from_slice(&[b'\n'; 8]);
    let end = data.len() - 9;
    let map = calculate_data_slice(&data, 0, end);
    let got = items(&map);
    assert!(got.len() == 1 || got.len() == 2);
    let total: u32 = got.iter().map(|e| e.1).sum();
    assert_eq!(total, 40);
    for e in &got {
        assert_eq!(e.0, b"abcdefghijklmnop".to_vec());
    }
}

#[test]
fn adds_give_the_statistics_of_the_sequence() {
    let values = [12, -7, 300, 0, -999, 45];
    let mut r = Record::default();
    for v in values {
        r.add(v);
    }
    assert_eq!(r.count, 6);
    assert_eq!(r.sum, 12 - 7 + 300 + 0 - 999 + 45);
    assert_eq!(r.min, -999);
    assert_eq!(r.max, 300);
}

#[test]
fn merging_two_records_is_adding_both_sequences() {
    let a = [5, -3, 88];
    let b = [-40, 17];
    let mut ra = Record::default();
    for v in a {
        ra.add(v);
    }
    let mut rb = Record::default();
    for v in b {
        rb.add(v);
    }
    let mut all = Record::default();
    for v in a.iter().chain(b.iter()) {
        all.add(*v);
    }
    ra.merge(rb);
    assert_eq!((ra.count, ra.min, ra.max, ra.sum), (all.count, all.min, all.max, all.sum));
}

#[test]
fn alternating_measurements_with_large_magnitude_total() {
    let lines = 2_200_000;
    let mut data = Vec::with_capacity(lines * 8 + 16);
    for i in 0..lines {
        if i % 2 == 0 {
            data.extend_from_slice(b"a;99.9\n");
        } else {
            data.extend_from_slice(b"a;-99.9\n");
        }
    }
    data.extend_from_slice(&[b'\n'; 8]);
    let end = data.len() - 9;
    let map = calculate_data_slice(&data, 0, end);
    let got = items(&map);
    assert_eq!(got, vec![(b"a".to_vec(), lines as u32, -999, 999, 0)]);
}
