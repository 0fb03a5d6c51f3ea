use cloudstate::cloudstate::{CloudstateArrayItemKey, CloudstateMapFieldKey};
use std::cmp::Ordering;

fn mk(id: &str, field: &str) -> CloudstateMapFieldKey {
    CloudstateMapFieldKey { id: id.to_string(), field: field.to_string() }
}

fn ak(id: &str, index: i32) -> CloudstateArrayItemKey {
    CloudstateArrayItemKey { id: id.to_string(), index }
}

#[test]
fn map_keys_order_by_id_then_field() {
    assert_eq!(mk("a", "z").cmp(&mk("b", "a")), Ordering::Less);
    assert_eq!(mk("a", "b").cmp(&mk("a", "a")), Ordering::Greater);
    assert_eq!(mk("a", "b").cmp(&mk("a", "b")), Ordering::Equal);
    assert_eq!(mk("a", "").cmp(&mk("a", "x")), Ordering::Less);
    assert_eq!(mk("ab", "a").cmp(&mk("a", "z")), Ordering::Greater);
    assert_eq!(mk("é", "a").cmp(&mk("z", "a")), "é".cmp("z"));
    assert_eq!(mk("x", "a").partial_cmp(&mk("x", "b")), Some(Ordering::Less));
}

#[test]
fn array_keys_order_by_id_then_index() {
    assert_eq!(ak("a", 5).cmp(&ak("b", 0)), Ordering::Less);
    assert_eq!(ak("a", -1).cmp(&ak("a", 0)), Ordering::Less);
    assert_eq!(ak("a", 3).cmp(&ak("a", 2)), Ordering::Greater);
    assert_eq!(ak("a", 2).cmp(&ak("a", 2)), Ordering::Equal);
    assert_eq!(ak("b", 0).partial_cmp(&ak("a", 9)), Some(Ordering::Greater));
}
