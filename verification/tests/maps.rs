use entropy::sorted_map::SortedMap;

fn sample() -> SortedMap<u32, &'static str> {
    let mut map = SortedMap::new();
    for (k, v) in [(5, "e"), (1, "a"), (3, "c")] {
        assert_eq!(map.insert(k, v), None);
    }
    map
}

#[test]
fn entries_are_sorted() {
    let map = sample();
    assert_eq!(map.len(), 3);
    assert_eq!(map.keys(), vec![1, 3, 5]);
    assert_eq!(map.entry(1), (3, &"c"));
    assert_eq!(map.last_key(), Some(5));
    assert_eq!(map.to_list(), vec![(1, "a"), (3, "c"), (5, "e")]);
}

#[test]
fn insert_replaces_and_remove_gives_back() {
    let mut map = sample();
    assert_eq!(map.insert(3, "x"), Some("c"));
    assert_eq!(map.get(&3), Some(&"x"));
    assert_eq!(map.remove(&3), Some("x"));
    assert_eq!(map.remove(&3), None);
    assert!(!map.contains_key(&3));
    assert_eq!(map.len(), 2);
}

#[test]
fn first_entries_are_popped() {
    let mut map = sample();
    assert_eq!(map.pop_first(), Some((1, "a")));
    assert_eq!(map.pop_first(), Some((3, "c")));
    assert_eq!(map.pop_first(), Some((5, "e")));
    assert_eq!(map.pop_first(), None);
    assert_eq!(map.last_key(), None);
}

#[test]
fn extension_prefers_the_new_entries() {
    let mut map = sample();
    let mut more = SortedMap::new();
    more.insert(3, "y");
    more.insert(4, "d");
    map.extend(more);
    assert_eq!(map.clone().to_list(), vec![(1, "a"), (3, "y"), (4, "d"), (5, "e")]);
}

#[test]
fn byte_keys_are_sorted_as_strings_are() {
    let mut map = SortedMap::new();
    let mut low = [0; 32];
    low[31] = 255;
    let mut high = [0; 32];
    high[0] = 1;
    map.insert(high, 2);
    map.insert(low, 1);
    assert_eq!(map.keys(), vec![low, high]);
}
