use billion_rows::custom_map::{CustomMap, CustomMapIter};
use billion_rows::record::Record;

fn entries(map: &CustomMap) -> Vec<(Vec<u8>, Record)> {
    let mut out = Vec::new();
    let mut it = map.iter();
    while let Some((name, record)) = it.next() {
        out.push((name.to_vec(), record));
    }
    out.sort_by(|a, b| a.0.cmp(&b.0));
    out
}

#[test]
fn new_table_is_empty() {
    let data = b"abc;1.0\n".to_vec();
    let map = CustomMap::new(&data);
    let mut it = CustomMapIter::new(&map);
    assert!(it.next().is_none());
}

#[test]
fn find_index_returns_same_slot_for_same_name() {
    let data = b"Paris;1.0\nRome;2.0\nParis;3.0\n".to_vec();
    let mut map = CustomMap::new(&data);
    let a = map.find_index(0, 5);
    let b = map.find_index(10, 4);
    let c = map.find_index(19, 5);
    assert_eq!(a, c);
    assert_ne!(a, b);
}

#[test]
fn raw_and_byte_lookups_use_separate_slots() {
    let data = b"Oslo;1.0\n".to_vec();
    let mut map = CustomMap::new(&data);
    let raw = i128::from_le_bytes(*b"Oslo;1.0\n\0\0\0\0\0\0\0");
    let by_word = map.find_index_with_raw_data(0, 4, raw);
    let by_word_again = map.find_index_with_raw_data(0, 4, raw);
    assert_eq!(by_word, by_word_again);
    let by_bytes = map.find_index(0, 4);
    assert_ne!(by_word, by_bytes);
}

#[test]
fn masked_word_ignores_bytes_after_name() {
    let data = b"Oslo;1.0\nOslo;2.0\n".to_vec();
    let mut map = CustomMap::new(&data);
    let first = i128::from_le_bytes(*b"Oslo;1.0\nOslo;2.");
    let second = i128::from_le_bytes(*b"Oslo;2.0\n\0\0\0\0\0\0\0");
    assert_eq!(map.find_index_with_raw_data(0, 4, first), map.find_index_with_raw_data(9, 4, second));
}

#[test]
fn add_value_updates_the_station() {
    let data = b"Lima;1.0\nQuito;2.0\n".to_vec();
    let mut map = CustomMap::new(&data);
    let lima = map.find_index(0, 4);
    map.add_value(lima, 10);
    map.add_value(lima, -30);
    let quito = map.find_index(9, 5);
    map.add_value(quito, 20);
    let e = entries(&map);
    assert_eq!(e.len(), 2);
    assert_eq!(e[0].0, b"Lima".to_vec());
    assert_eq!((e[0].1.count, e[0].1.min, e[0].1.max, e[0].1.sum), (2, -30, 10, -20));
    assert_eq!(e[1].0, b"Quito".to_vec());
    assert_eq!((e[1].1.count, e[1].1.min, e[1].1.max, e[1].1.sum), (1, 20, 20, 20));
}

#[test]
fn iterator_visits_every_filled_slot_once() {
    let names: Vec<String> = (0..300).map(|i| format!("Station{}", i)).collect();
    let text: String = names.iter().map(|n| format!("{};1.0\n", n)).collect();
    let data = text.into_bytes();
    let mut map = CustomMap::new(&data);
    let mut pos = 0;
    for n in &names {
        let idx = map.find_index(pos, n.len());
        map.add_value(idx, 5);
        pos += n.len() + 5;
    }
    let e = entries(&map);
    assert_eq!(e.len(), 300);
    for (name, r) in e {
        assert!(names.contains(&String::from_utf8(name).unwrap()));
        assert_eq!(r.count, 1);
    }
}

#[test]
fn empty_table_places_name_at_its_hash() {
    let data = b"Paris;1.0\n".to_vec();
    let mut map = CustomMap::new(&data);
    let expected = fxhash::hash(&data[0..5]) & 65535;
    assert_eq!(map.find_index(0, 5), expected);
}

#[test]
fn empty_table_places_word_at_its_hash() {
    let data = b"Rome;1.0\n".to_vec();
    let mut map = CustomMap::new(&data);
    let raw = i128::from_le_bytes(*b"Rome;1.0\n\0\0\0\0\0\0\0");
    let masked = raw & 0xFFFF_FFFF;
    let expected = fxhash::hash(&masked) & 65535;
    assert_eq!(map.find_index_with_raw_data(0, 4, raw), expected);
}

#[test]
fn colliding_names_probe_to_the_next_slot() {
    let data = b"Paris;1.0\n".to_vec();
    let mut map = CustomMap::new(&data);
    let home = fxhash::hash(&data[0..5]) & 65535;
    // "Pari" is another name; if it lands on Paris's home it moves one slot on.
    let paris = map.find_index(0, 5);
    let pari = map.find_index(0, 4);
    assert_eq!(paris, home);
    if fxhash::hash(&data[0..4]) & 65535 == home {
        assert_eq!(pari, (home + 1) & 65535);
    }
    assert_ne!(paris, pari);
}
