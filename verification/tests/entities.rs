use preset_browser::category::{Bank, Category, Mode};
use preset_browser::natural::natural_ordering;
use preset_browser::preset::Preset;
use preset_browser::product::{Product, ProductKey};
use std::cmp::Ordering;
use std::collections::HashSet;

fn text(s: &str) -> String {
    String::from(s)
}

fn preset(id: usize, name: &str) -> Preset {
    Preset {
        name: text(name),
        vendor: text("Acme"),
        comment: text(""),
        product_id: ProductKey::Id(1),
        product_name: text("Product"),
        id,
        file_name: text("/content/file.nki"),
        bank: 0,
        categories: HashSet::new(),
        modes: HashSet::new(),
    }
}

fn product(id: usize, name: &str) -> Product {
    Product {
        id,
        name: text(name),
        content_dir: text("/content"),
        vendor: text("Acme"),
        upid: text(""),
        presets: HashSet::new(),
    }
}

fn category(id: usize, name: &str, sub: &str) -> Category {
    Category { id, name: text(name), subcategory: text(sub), subsubcategory: text(""), presets: HashSet::new() }
}

fn bank(id: usize, entry1: &str, entry2: &str) -> Bank {
    Bank { id, entry1: text(entry1), entry2: text(entry2), entry3: text(""), presets: HashSet::new() }
}

fn mode(id: usize, name: &str) -> Mode {
    Mode { id, name: text(name), presets: HashSet::new() }
}

#[test]
fn signs_become_orders() {
    assert_eq!(natural_ordering("Track 2", "Track 10"), Ordering::Less);
    assert_eq!(natural_ordering("Track 10", "Track 2"), Ordering::Greater);
    assert_eq!(natural_ordering("abc", "ABC"), Ordering::Equal);
}

#[test]
fn entities_are_equal_by_id() {
    assert!(preset(1, "A") == preset(1, "B"));
    assert!(preset(1, "A") != preset(2, "A"));
    assert!(product(1, "A") == product(1, "B"));
    assert!(product(1, "A") != product(2, "A"));
    assert!(category(1, "A", "") == category(1, "B", "x"));
    assert!(category(1, "A", "") != category(2, "A", ""));
    assert!(bank(1, "A", "") == bank(1, "B", ""));
    assert!(bank(1, "A", "") != bank(2, "A", ""));
    assert!(mode(1, "A") == mode(1, "B"));
    assert!(mode(1, "A") != mode(2, "A"));
}

#[test]
fn entities_are_ordered_by_name() {
    assert!(preset(9, "Track 2") < preset(1, "track 10"));
    assert!(preset(1, "track 10") > preset(9, "Track 2"));
    assert_eq!(preset(1, "same").partial_cmp(&preset(2, "SAME")), Some(Ordering::Equal));
    assert!(product(9, "Piano 2") < product(1, "piano 10"));
    assert!(mode(9, "Mono") < mode(1, "poly"));
}

#[test]
fn categories_and_banks_are_ordered_by_display_name() {
    assert!(category(9, "Synth", "Lead 2") < category(1, "synth", "Lead 10"));
    assert!(category(9, "Synth", "") < category(1, "Synth", "Lead"));
    assert!(bank(9, "Factory", "Bass") < bank(1, "Factory", "Pads"));
    assert_eq!(bank(1, "Factory", "").partial_cmp(&bank(2, "FACTORY", "")), Some(Ordering::Equal));
}

#[test]
fn a_name_and_itself_are_equal_in_order() {
    for name in ["", "Track 10", "a  b", "\u{130}"] {
        assert_eq!(natural_ordering(name, name), Ordering::Equal);
    }
    assert_eq!(natural_ordering("a2", "a10").reverse(), natural_ordering("a10", "a2"));
}

#[test]
fn copies_say_what_the_entities_say() {
    let mut first = preset(7, "Lead");
    first.categories.insert(3);
    first.modes.insert(4);
    first.product_id = ProductKey::Upid(text("alias"));
    let copy = first.clone();
    assert_eq!(copy.id, 7);
    assert_eq!(copy.name, "Lead");
    assert_eq!(copy.vendor, first.vendor);
    assert_eq!(copy.comment, first.comment);
    assert_eq!(copy.product_id, ProductKey::Upid(text("alias")));
    assert_eq!(copy.product_name, first.product_name);
    assert_eq!(copy.file_name, first.file_name);
    assert_eq!(copy.bank, first.bank);
    assert_eq!(copy.categories, first.categories);
    assert_eq!(copy.modes, first.modes);

    let mut shop = product(2, "Shop");
    shop.presets.insert(9);
    shop.presets.insert(10);
    let copy = shop.clone();
    assert_eq!((copy.id, copy.name.as_str(), copy.content_dir.as_str()), (2, "Shop", "/content"));
    assert_eq!((copy.vendor.as_str(), copy.upid.as_str()), ("Acme", ""));
    assert_eq!(copy.presets, shop.presets);

    let mut synth = category(3, "Synth", "Lead");
    synth.presets.insert(1);
    let copy = synth.clone();
    assert_eq!(copy.get_name(), "Synth / Lead");
    assert_eq!((copy.id, copy.presets.len()), (3, 1));
    assert!(copy.presets.contains(&1));

    let mut factory = bank(4, "Factory", "Pads");
    factory.presets.insert(2);
    let copy = factory.clone();
    assert_eq!(copy.get_name(), "Factory / Pads");
    assert_eq!(copy.id, 4);
    assert_eq!(copy.presets, factory.presets);

    let mut poly = mode(5, "Poly");
    poly.presets.insert(6);
    let copy = poly.clone();
    assert_eq!((copy.id, copy.name.as_str()), (5, "Poly"));
    assert_eq!(copy.presets, poly.presets);

    assert_eq!(ProductKey::Id(3).clone(), ProductKey::Id(3));
}
