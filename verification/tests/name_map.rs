use eks::name_map::NameMap;

#[test]
fn names_are_held_once_and_listed_in_order() {
    let mut map = NameMap::new();
    assert!(map.is_empty());
    for (name, value) in [("pods", 1), ("cpu", 2), ("memory", 3), ("cpu", 4)] {
        map.insert(name.to_owned(), value);
    }
    assert_eq!(map.len(), 3);
    let listed: Vec<(&str, i32)> = (0..map.len())
        .map(|i| (map.name_at(i), *map.value_at(i)))
        .collect();
    assert_eq!(listed, [("cpu", 4), ("memory", 3), ("pods", 1)]);
}

#[test]
fn what_is_taken_out_is_gone_and_nothing_else_is() {
    let mut map = NameMap::new();
    map.insert("b".to_owned(), 2);
    map.insert("a".to_owned(), 1);
    assert_eq!(map.remove("c"), None);
    assert_eq!(map.remove("a"), Some(1));
    assert_eq!(map.get("a"), None);
    assert_eq!(map.get("b"), Some(&2));
    assert_eq!(map.clone(), map);
}
