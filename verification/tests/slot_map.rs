use preset_browser::slots::SlotMap;

#[test]
fn ids_get_their_slots_in_order() {
    let mut slots = SlotMap::new();
    assert_eq!(slots.len(), 0);
    assert!(slots.add(40));
    assert!(slots.add(7));
    assert!(slots.add(0));
    assert_eq!(slots.len(), 3);
    assert_eq!(slots.slot(40), Some(0));
    assert_eq!(slots.slot(7), Some(1));
    assert_eq!(slots.slot(0), Some(2));
    assert_eq!(slots.slot(1), None);
}

#[test]
fn an_id_is_added_once() {
    let mut slots = SlotMap::new();
    assert!(slots.add(5));
    assert!(!slots.add(5));
    assert_eq!(slots.len(), 1);
    assert_eq!(slots.slot(5), Some(0));
    assert!(slots.add(6));
    assert_eq!(slots.slot(6), Some(1));
}

#[test]
fn an_empty_map_knows_no_id() {
    let slots = SlotMap::new();
    assert_eq!(slots.slot(0), None);
    assert_eq!(slots.slot(usize::MAX), None);
}
