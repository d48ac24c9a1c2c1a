//! Maps whose keys are names.
use wasm_split::name_map::NameMap;

#[test]
fn names_have_one_value() {
    let mut map = NameMap::new();
    map.insert("a", 1);
    map.insert("b", 2);
    map.insert("a", 3);
    assert_eq!(map.get("a"), Some(&3));
    assert_eq!(map.get("b"), Some(&2));
    assert_eq!(map.get("c"), None);
    assert_eq!(
        map.entries(),
        &vec![("a".to_string(), 3), ("b".to_string(), 2)]
    );
    assert_eq!(map.remove("a"), Some(3));
    assert_eq!(map.remove("a"), None);
    assert_eq!(map.get("a"), None);
    assert_eq!(map.entries().len(), 1);
}
