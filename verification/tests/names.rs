use fennel_ls::names::NameMap;

#[test]
fn a_name_keeps_its_place_and_takes_the_new_value() {
    let mut map: NameMap<u32> = NameMap::new();
    map.insert("a", 1);
    map.insert("b", 2);
    map.insert("a", 3);
    assert_eq!(map.len(), 2);
    assert_eq!((map.name_at(0), *map.value_at(0)), ("a", 3));
    assert_eq!((map.name_at(1), *map.value_at(1)), ("b", 2));
    let copy = map.clone();
    map.insert("c", 4);
    assert_eq!(copy.len(), 2);
    assert_eq!(copy.get("a"), Some(&3));
    assert!(!copy.contains_key("c"));
    assert!(map.contains_key("c"));
}
