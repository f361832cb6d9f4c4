use std::collections::BTreeMap;

use billion_rows::accumulate::slow_process;
use billion_rows::custom_map::CustomMap;
use billion_rows::data_slice::{calculate_data_slice, plan_slices};
use billion_rows::record::Record;
use billion_rows::totals::{merge, name_less, StationTotals};

/// (count, min, max, sum) per station, computed line by line.
fn reference(text: &[u8], from: usize, end: usize) -> BTreeMap<Vec<u8>, (u32, i32, i32, i32)> {
    let mut out = BTreeMap::new();
    let mut p = from;
    while p <= end && p < text.len() {
        let semi = p + text[p..].iter().position(|&b| b == b';').unwrap();
        let dot = semi + text[semi..].iter().position(|&b| b == b'.').unwrap();
        let digits = std::str::from_utf8(&text[semi + 1..dot]).unwrap();
        let (neg, digits) = match digits.strip_prefix('-') {
            Some(d) => (true, d),
            None => (false, digits),
        };
        let int: i32 = if digits.is_empty() { 0 } else { digits.parse().unwrap() };
        let mag = int * 10 + (text[dot + 1] - b'0') as i32;
        let v = if neg { -mag } else { mag };
        let e = out.entry(text[p..semi].to_vec()).or_insert((0u32, 1000i32, -1000i32, 0i32));
        e.0 += 1;
        e.1 = e.1.min(v);
        e.2 = e.2.max(v);
        e.3 += v;
        p = dot + 3;
    }
    out
}

fn table_entries(map: &CustomMap) -> BTreeMap<Vec<u8>, (u32, i32, i32, i32)> {
    let mut out: BTreeMap<Vec<u8>, (u32, i32, i32, i32)> = BTreeMap::new();
    let mut it = map.iter();
    while let Some((name, r)) = it.next() {
        let e = out.entry(name.to_vec()).or_insert((0, 1000, -1000, 0));
        e.0 += r.count;
        e.1 = e.1.min(r.min);
        e.2 = e.2.max(r.max);
        e.3 += r.sum;
    }
    out
}

fn sample(lines: usize) -> Vec<u8> {
    let stations = ["Hamburg", "Bulawayo", "Palembang", "St. John's", "Cracow", "Zürich",
        "A station with a name well beyond sixteen bytes", "Abcdefghijklmnop", "Xy"];
    let mut text = String::new();
    for i in 0..lines {
        let s = stations[(i * 7 + i / 3) % stations.len()];
        let v: i32 = ((i as i32 * 37) % 1999) - 999;
        let sign = if v < 0 { "-" } else { "" };
        text.push_str(&format!("{};{}{}.{}\n", s, sign, v.abs() / 10, v.abs() % 10));
    }
    let mut bytes = text.into_bytes();
    bytes.extend_from_slice(&[b'\n'; 8]);
    bytes
}

#[test]
fn slow_process_matches_line_by_line() {
    let data = b"Oslo;-12.3\nLima;4.0\nOslo;123.4\nA long name over sixteen;-.5\nLima;0.1\n".to_vec();
    let mut map = CustomMap::new(&data);
    let end = data.len() - 1;
    slow_process(&data, 0, end, &mut map);
    assert_eq!(table_entries(&map), reference(&data, 0, end));
    let oslo = table_entries(&map)[&b"Oslo".to_vec()];
    assert_eq!(oslo, (2, -123, 1234, 1111));
}

#[test]
fn slow_process_stops_after_end() {
    let data = b"Oslo;1.0\nLima;2.0\nRome;3.0\n".to_vec();
    let mut map = CustomMap::new(&data);
    slow_process(&data, 0, 9, &mut map);
    let e = table_entries(&map);
    assert_eq!(e.len(), 2);
    assert!(!e.contains_key(&b"Rome".to_vec()));
}

#[test]
fn calculate_data_slice_matches_sequential_scan() {
    let data = sample(2000);
    let end = data.len() - 9;
    let map = calculate_data_slice(&data, 0, end);
    assert_eq!(table_entries(&map), reference(&data, 0, end));
}

#[test]
fn calculate_data_slice_from_the_middle_starts_at_next_line() {
    let data = sample(3000);
    let begin = 1001;
    let end = data.len() - 9;
    let map = calculate_data_slice(&data, begin, end);
    let first = begin + data[begin..].iter().position(|&b| b == b'\n').unwrap() + 1;
    assert_eq!(table_entries(&map), reference(&data, first, end));
}

#[test]
fn plan_covers_workers() {
    let plan = plan_slices(1000, 4);
    assert_eq!(plan, vec![(0, 250), (251, 500), (501, 750), (751, 995)]);
    assert_eq!(plan_slices(100, 1), vec![(0, 100), (1, 95)]);
    assert_eq!(plan_slices(100, 2), vec![(0, 50), (51, 95)]);
}

#[test]
fn name_order_is_bytewise() {
    assert!(name_less(b"Abc", b"Abd"));
    assert!(name_less(b"Ab", b"Abc"));
    assert!(!name_less(b"Abc", b"Abc"));
    assert!(!name_less(b"b", b"a"));
    assert!(name_less(b"Z", "Ä".as_bytes()));
}

#[test]
fn totals_merge_tables_and_stay_sorted() {
    let data = sample(2000);
    let end = data.len() - 9;
    let mid = data.len() / 2;
    let mut totals = StationTotals::new();
    let first = calculate_data_slice(&data, 0, mid);
    merge(&mut totals, &first);
    let second = calculate_data_slice(&data, mid + 1, end);
    merge(&mut totals, &second);
    let mut expected = reference(&data, 0, mid);
    let start2 = mid + 1 + data[mid + 1..].iter().position(|&b| b == b'\n').unwrap() + 1;
    for (k, v) in reference(&data, start2, end) {
        let e = expected.entry(k).or_insert((0, 1000, -1000, 0));
        e.0 += v.0;
        e.1 = e.1.min(v.1);
        e.2 = e.2.max(v.2);
        e.3 += v.3;
    }
    assert_eq!(totals.len(), expected.len());
    for (i, (name, v)) in expected.iter().enumerate() {
        assert_eq!(totals.name(i), name.as_slice());
        let r: Record = totals.record(i);
        assert_eq!((r.count, r.min, r.max, r.sum), *v);
    }
}

#[test]
fn add_record_merges_same_name() {
    let mut totals = StationTotals::new();
    let mut a = Record::default();
    a.add(5);
    totals.add_record(b"Oslo", a);
    let mut b = Record::default();
    b.add(-7);
    totals.add_record(b"Lima", b);
    totals.add_record(b"Oslo", b);
    assert_eq!(totals.len(), 2);
    assert_eq!(totals.name(0), b"Lima");
    assert_eq!(totals.name(1), b"Oslo");
    let r = totals.record(1);
    assert_eq!((r.count, r.min, r.max, r.sum), (2, -7, 5, -2));
}

fn run_plan(data: &[u8], workers: usize) -> StationTotals {
    let plan = plan_slices(data.len(), workers);
    let mut totals = StationTotals::new();
    for (begin, end) in plan {
        let map = calculate_data_slice(data, begin, end);
        merge(&mut totals, &map);
    }
    totals
}

fn totals_as_map(t: &StationTotals) -> BTreeMap<Vec<u8>, (u32, i32, i32, i32)> {
    let mut out = BTreeMap::new();
    for i in 0..t.len() {
        let r = t.record(i);
        out.insert(t.name(i).to_vec(), (r.count, r.min, r.max, r.sum));
    }
    out
}

/// Lines only, ending with a line end, with a first line `Pad;<k>.0` whose
/// length is tuned by `k` digits of padding.
fn whole_input(lines: usize, pad: usize) -> Vec<u8> {
    let mut text = format!("Pad{};1.0\n", "x".repeat(pad)).into_bytes();
    let body = sample(lines);
    text.extend_from_slice(&body[..body.len() - 8]);
    text
}

#[test]
fn plan_slices_count_every_line_once() {
    let workers = 4;
    let mut pad = 0;
    let data = loop {
        let data = whole_input(5000, pad);
        let step = data.len() / workers;
        if (1..workers).all(|j| data[step * j] != b'\n') {
            break data;
        }
        pad += 1;
    };
    let totals = run_plan(&data, workers);
    let expected = reference(&data, 0, data.len() - 5);
    assert_eq!(totals_as_map(&totals), expected);
}

#[test]
fn slice_end_on_line_end_skips_the_next_line() {
    let workers = 2;
    let mut pad = 0;
    let data = loop {
        let data = whole_input(4000, pad);
        let step = data.len() / workers;
        if data[step] == b'\n' {
            break data;
        }
        pad += 1;
    };
    let totals = run_plan(&data, workers);
    let expected = reference(&data, 0, data.len() - 5);
    let got: u32 = totals_as_map(&totals).values().map(|v| v.0).sum();
    let all: u32 = expected.values().map(|v| v.0).sum();
    assert_eq!(got + 1, all);
}
