use billion_rows::record::Record;

#[test]
fn default_record_is_empty() {
    let r = Record::default();
    assert_eq!(r.count, 0);
    assert_eq!(r.min, 1000);
    assert_eq!(r.max, -1000);
    assert_eq!(r.sum, 0);
}

#[test]
fn add_tracks_count_min_max_sum() {
    let mut r = Record::default();
    r.add(123);
    r.add(-45);
    r.add(7);
    assert_eq!(r.count, 3);
    assert_eq!(r.min, -45);
    assert_eq!(r.max, 123);
    assert_eq!(r.sum, 85);
}

#[test]
fn merge_combines_records() {
    let mut a = Record::default();
    a.add(10);
    a.add(20);
    let mut b = Record::default();
    b.add(-5);
    b.add(300);
    a.merge(b);
    assert_eq!(a.count, 4);
    assert_eq!(a.min, -5);
    assert_eq!(a.max, 300);
    assert_eq!(a.sum, 325);
}

#[test]
fn merge_with_default_changes_nothing() {
    let mut a = Record::default();
    a.add(42);
    let before = a;
    a.merge(Record::default());
    assert_eq!(a.count, before.count);
    assert_eq!(a.min, before.min);
    assert_eq!(a.max, before.max);
    assert_eq!(a.sum, before.sum);
}

#[test]
fn merge_is_commutative_on_example() {
    let mut a = Record::default();
    a.add(1);
    a.add(-9);
    let mut b = Record::default();
    b.add(15);
    let mut ab = a;
    ab.merge(b);
    let mut ba = b;
    ba.merge(a);
    assert_eq!((ab.count, ab.min, ab.max, ab.sum), (ba.count, ba.min, ba.max, ba.sum));
}
