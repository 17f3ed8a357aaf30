use arceos_loader::collections::hash_map::HashMap;
use arceos_loader::collections::hashbrown;
use std::collections::hash_map::DefaultHasher;
use std::hash::BuildHasherDefault;

fn drain(map: &HashMap<u64, &'static str>) -> Vec<(u64, &'static str)> {
    let mut it = map.iter();
    let mut out = Vec::new();
    while let Some((k, v)) = it.next() {
        out.push((*k, *v));
    }
    out.sort();
    out
}

#[test]
fn insert_reports_the_previous_value() {
    let mut map: HashMap<u64, &str> = HashMap::new();
    assert_eq!(map.insert(37, "a"), None);
    assert_eq!(map.iter().size_hint(), (1, Some(1)));
    map.insert(37, "b");
    assert_eq!(map.insert(37, "c"), Some("b"));
    assert_eq!(drain(&map), vec![(37, "c")]);
}

#[test]
fn iter_lists_every_entry_once() {
    let mut map: HashMap<u64, &str> = HashMap::new();
    map.insert(1, "one");
    map.insert(2, "two");
    map.insert(3, "three");
    map.insert(2, "deux");
    assert_eq!(drain(&map), vec![(1, "one"), (2, "deux"), (3, "three")]);
}

#[test]
fn iter_of_new_map_is_empty() {
    let map: HashMap<u64, &str> = HashMap::new();
    let mut it = map.iter();
    assert_eq!(it.size_hint(), (0, Some(0)));
    assert_eq!(it.next(), None);
}

#[test]
fn size_hint_counts_down() {
    let mut map: HashMap<u64, &str> = HashMap::new();
    map.insert(10, "x");
    map.insert(20, "y");
    let mut it = map.iter();
    assert_eq!(it.size_hint(), (2, Some(2)));
    assert!(it.next().is_some());
    assert_eq!(it.size_hint(), (1, Some(1)));
    assert!(it.next().is_some());
    assert_eq!(it.size_hint(), (0, Some(0)));
    assert_eq!(it.next(), None);
    assert_eq!(it.next(), None);
}

#[test]
fn with_hasher_uses_the_given_builder() {
    let mut map: HashMap<u64, u64, BuildHasherDefault<DefaultHasher>> =
        HashMap::with_hasher(BuildHasherDefault::default());
    for i in 0..100u64 {
        assert_eq!(map.insert(i, i * i), None);
    }
    assert_eq!(map.iter().size_hint(), (100, Some(100)));
    assert_eq!(map.insert(7, 0), Some(49));
    let mut it = map.iter();
    let mut seen = 0;
    while let Some((k, v)) = it.next() {
        if *k == 7 {
            assert_eq!(*v, 0);
        } else {
            assert_eq!(*v, k * k);
        }
        seen += 1;
    }
    assert_eq!(seen, 100);
}

#[test]
fn default_map_is_empty() {
    let map: HashMap<u64, u64, BuildHasherDefault<DefaultHasher>> = Default::default();
    assert_eq!(map.iter().next(), None);
}

#[test]
fn table_layer_inserts_and_iterates() {
    let mut table: hashbrown::HashMap<u64, u64, BuildHasherDefault<DefaultHasher>> =
        hashbrown::HashMap::with_hasher(BuildHasherDefault::default());
    assert_eq!(table.insert(5, 50), None);
    assert_eq!(table.insert(6, 60), None);
    assert_eq!(table.insert(5, 55), Some(50));
    assert_eq!(table.iter().size_hint(), (2, Some(2)));
    let mut it = table.iter();
    let mut got = Vec::new();
    while let Some((k, v)) = it.next() {
        got.push((*k, *v));
    }
    got.sort();
    assert_eq!(got, vec![(5, 55), (6, 60)]);
}

#[test]
fn string_keys_work() {
    let mut map: HashMap<String, u32> = HashMap::new();
    assert_eq!(map.insert("a".to_string(), 1), None);
    assert_eq!(map.insert("b".to_string(), 2), None);
    assert_eq!(map.insert("a".to_string(), 3), Some(1));
    assert_eq!(map.iter().size_hint(), (2, Some(2)));
}

fn pairs(map: &HashMap<u64, u64>) -> Vec<(u64, u64)> {
    let mut it = map.iter();
    let mut out = Vec::new();
    while let Some((k, v)) = it.next() {
        out.push((*k, *v));
    }
    out.sort();
    out
}

#[test]
fn inserts_of_distinct_keys_commute() {
    let mut m1: HashMap<u64, u64> = HashMap::new();
    let mut m2: HashMap<u64, u64> = HashMap::new();
    m1.insert(1, 10);
    m1.insert(2, 20);
    m2.insert(2, 20);
    m2.insert(1, 10);
    assert_eq!(pairs(&m1), pairs(&m2));
}

#[test]
fn inserting_the_same_pair_twice_changes_nothing_more() {
    let mut m: HashMap<u64, u64> = HashMap::new();
    m.insert(4, 40);
    let before = pairs(&m);
    assert_eq!(m.insert(4, 40), Some(40));
    assert_eq!(pairs(&m), before);
}
