use preset_browser::product::{Product, ProductKey, ProductTable};
use std::collections::HashSet;

fn product(id: usize, name: &str) -> Product {
    Product {
        id,
        name: String::from(name),
        content_dir: format!("/content/{}", id),
        vendor: String::from("Acme"),
        upid: String::new(),
        presets: HashSet::new(),
    }
}

fn alias(text: &str) -> ProductKey {
    ProductKey::Upid(String::from(text))
}

#[test]
fn both_keys_lead_to_one_record() {
    let mut table = ProductTable::new();
    assert_eq!(table.insert(vec![ProductKey::Id(1), alias("one")], product(1, "One")).ok(), Some(0));
    let by_id = table.get(&ProductKey::Id(1)).unwrap();
    let by_alias = table.get(&alias("one")).unwrap();
    assert_eq!(by_id.id, by_alias.id);
    assert_eq!(by_id.name, "One");
    assert!(table.contains_key(&alias("one")));
    assert!(!table.contains_key(&alias("two")));
    assert!(table.get(&ProductKey::Id(2)).is_none());
}

#[test]
fn a_change_through_one_key_shows_under_the_other() {
    let mut table = ProductTable::new();
    table.insert(vec![ProductKey::Id(1), alias("one")], product(1, "One")).unwrap();
    assert!(table.add_preset(&alias("one"), 42));
    assert!(table.get(&ProductKey::Id(1)).unwrap().presets.contains(&42));
    assert!(table.add_preset(&ProductKey::Id(1), 43));
    assert!(table.get(&alias("one")).unwrap().presets.contains(&43));
    assert!(!table.add_preset(&ProductKey::Id(9), 44));
}

#[test]
fn removal_through_one_key_removes_all() {
    let mut table = ProductTable::new();
    table.insert(vec![ProductKey::Id(1), alias("one")], product(1, "One")).unwrap();
    table.insert(vec![ProductKey::Id(2)], product(2, "Two")).unwrap();
    let gone = table.remove(&ProductKey::Id(1)).unwrap();
    assert_eq!(gone.id, 1);
    assert!(table.get(&alias("one")).is_none());
    assert!(table.get(&ProductKey::Id(1)).is_none());
    assert!(!table.contains_key(&alias("one")));
    assert_eq!(table.get(&ProductKey::Id(2)).unwrap().name, "Two");
    assert!(table.remove(&alias("one")).is_none());
    assert!(table.at(0).is_none());
    assert_eq!(table.at(1).unwrap().id, 2);
    assert_eq!(table.len(), 2);
}

#[test]
fn removal_through_the_alias_removes_the_number_too() {
    let mut table = ProductTable::new();
    table.insert(vec![ProductKey::Id(1), alias("one")], product(1, "One")).unwrap();
    assert!(table.remove(&alias("one")).is_some());
    assert!(table.get(&ProductKey::Id(1)).is_none());
}

#[test]
fn a_bound_key_is_never_bound_anew() {
    let mut table = ProductTable::new();
    table.insert(vec![ProductKey::Id(1), alias("one")], product(1, "One")).unwrap();
    let back = table.insert(vec![ProductKey::Id(2), alias("one")], product(2, "Two")).unwrap_err();
    assert_eq!(back.id, 2);
    assert!(table.get(&ProductKey::Id(2)).is_none());
    assert_eq!(table.get(&alias("one")).unwrap().id, 1);
    assert_eq!(table.len(), 1);
}

#[test]
fn keys_must_be_there_and_differ() {
    let mut table = ProductTable::new();
    assert!(table.insert(vec![], product(1, "One")).is_err());
    assert!(table.insert(vec![ProductKey::Id(1), ProductKey::Id(1)], product(1, "One")).is_err());
    assert!(table.insert(vec![alias("a"), alias("a")], product(1, "One")).is_err());
    assert_eq!(table.len(), 0);
    assert!(table.insert(vec![alias("a"), alias("b")], product(1, "One")).is_ok());
}

#[test]
fn a_number_and_a_text_never_collide() {
    let mut table = ProductTable::new();
    table.insert(vec![ProductKey::Id(1)], product(1, "One")).unwrap();
    assert!(table.insert(vec![alias("1")], product(2, "Two")).is_ok());
    assert_eq!(table.get(&alias("1")).unwrap().id, 2);
    assert_eq!(table.get(&ProductKey::Id(1)).unwrap().id, 1);
}

#[test]
fn one_more_key_for_a_record() {
    let mut table = ProductTable::new();
    table.insert(vec![ProductKey::Id(1), alias("one")], product(1, "One")).unwrap();
    assert!(table.bind(&alias("one"), ProductKey::Id(7)));
    assert_eq!(table.get(&ProductKey::Id(7)).unwrap().id, 1);
    assert!(!table.bind(&alias("one"), ProductKey::Id(7)));
    assert!(!table.bind(&alias("nobody"), ProductKey::Id(8)));
    assert!(table.get(&ProductKey::Id(8)).is_none());
    assert!(table.remove(&ProductKey::Id(7)).is_some());
    assert!(table.get(&ProductKey::Id(1)).is_none());
    assert!(table.get(&alias("one")).is_none());
}

#[test]
fn keys_compare_by_what_they_address() {
    assert!(ProductKey::Id(3).same(&ProductKey::Id(3)));
    assert!(!ProductKey::Id(3).same(&ProductKey::Id(4)));
    assert!(alias("x").same(&alias("x")));
    assert!(!alias("x").same(&alias("y")));
    assert!(!alias("3").same(&ProductKey::Id(3)));
    assert!(alias("x").duplicate().same(&alias("x")));
    assert!(ProductKey::Id(5).duplicate().same(&ProductKey::Id(5)));
}

#[test]
fn a_slot_is_found_by_key() {
    let mut table = ProductTable::new();
    table.insert(vec![ProductKey::Id(1)], product(1, "One")).unwrap();
    assert_eq!(table.insert(vec![ProductKey::Id(2), alias("two")], product(2, "Two")).ok(), Some(1));
    assert_eq!(table.slot(&alias("two")), Some(1));
    assert_eq!(table.slot(&ProductKey::Id(1)), Some(0));
    assert_eq!(table.slot(&ProductKey::Id(3)), None);
}
