use contacts::hash::{KeyOrder, RawHash};
use contacts::ordered_map::OrderedMap;

fn hash(first: u8, last: u8) -> RawHash {
    let mut bytes = vec![0x84, 0x21, 0x24];
    bytes.extend(std::iter::repeat(first).take(35));
    bytes.push(last);
    RawHash::new(bytes)
}

#[test]
fn compare_orders_bytes_lexicographically() {
    assert_eq!(hash(1, 9).compare(&hash(2, 0)), KeyOrder::Less);
    assert_eq!(hash(2, 0).compare(&hash(1, 9)), KeyOrder::Greater);
    assert_eq!(hash(3, 3).compare(&hash(3, 3)), KeyOrder::Equal);
    assert_eq!(hash(3, 3).compare(&hash(3, 4)), KeyOrder::Less);
}

#[test]
fn compare_orders_a_prefix_first() {
    let short = RawHash::new(vec![1, 2]);
    let long = RawHash::new(vec![1, 2, 0]);
    assert_eq!(short.compare(&long), KeyOrder::Less);
    assert_eq!(long.compare(&short), KeyOrder::Greater);
    assert_eq!(RawHash::new(vec![]).compare(&RawHash::new(vec![])), KeyOrder::Equal);
}

#[test]
fn same_as_and_duplicate() {
    let a = hash(7, 1);
    assert!(a.same_as(&a.duplicate()));
    assert!(!a.same_as(&hash(7, 2)));
    assert!(!a.same_as(&RawHash::new(vec![7])));
    assert_eq!(a.duplicate().bytes, a.bytes);
}

#[test]
fn entries_come_out_in_key_order() {
    let mut m: OrderedMap<u32> = OrderedMap::new();
    m.insert(hash(5, 0), 50);
    m.insert(hash(1, 0), 10);
    m.insert(hash(3, 0), 30);
    assert_eq!(m.len(), 3);
    assert_eq!(m.entry(0).1, 10);
    assert_eq!(m.entry(1).1, 30);
    assert_eq!(m.entry(2).1, 50);
    assert_eq!(m.into_values(), vec![10, 30, 50]);
}

#[test]
fn read_after_insert_gives_the_value() {
    let mut m: OrderedMap<&str> = OrderedMap::new();
    m.insert(hash(2, 0), "two");
    m.insert(hash(1, 0), "one");
    assert_eq!(m.get(&hash(2, 0)), Some(&"two"));
    assert_eq!(m.get(&hash(1, 0)), Some(&"one"));
    assert_eq!(m.get(&hash(9, 0)), None);
    m.insert(hash(2, 0), "deux");
    assert_eq!(m.get(&hash(2, 0)), Some(&"deux"));
    assert_eq!(m.len(), 2);
}

#[test]
fn remove_takes_the_entry_out() {
    let mut m: OrderedMap<u8> = OrderedMap::new();
    m.insert(hash(1, 0), 1);
    m.insert(hash(2, 0), 2);
    assert_eq!(m.remove(&hash(1, 0)), Some(1));
    assert!(!m.contains_key(&hash(1, 0)));
    assert!(m.contains_key(&hash(2, 0)));
    assert_eq!(m.remove(&hash(1, 0)), None);
    assert_eq!(m.len(), 1);
}

#[test]
fn collecting_pairs_keeps_the_last_value_of_a_key() {
    let m = OrderedMap::from_entries(vec![
        (hash(4, 0), 'a'),
        (hash(2, 0), 'b'),
        (hash(4, 0), 'c'),
    ]);
    assert_eq!(m.len(), 2);
    assert_eq!(m.get(&hash(4, 0)), Some(&'c'));
    let entries = m.into_entries();
    assert_eq!(entries[0].0.bytes, hash(2, 0).bytes);
    assert_eq!(entries[1].1, 'c');
}

#[test]
fn an_empty_map_has_no_entries() {
    let m: OrderedMap<u8> = OrderedMap::new();
    assert_eq!(m.len(), 0);
    assert!(!m.contains_key(&hash(0, 0)));
    assert!(m.into_values().is_empty());
}

#[test]
fn collecting_a_maps_entries_gives_it_back() {
    let mut m: OrderedMap<u8> = OrderedMap::new();
    m.insert(hash(9, 0), 9);
    m.insert(hash(2, 0), 2);
    m.insert(hash(5, 5), 5);
    let again = OrderedMap::from_entries(m.into_entries());
    assert_eq!(again.len(), 3);
    assert_eq!(again.get(&hash(5, 5)), Some(&5));
    assert_eq!(again.into_values(), vec![2, 5, 9]);
}
