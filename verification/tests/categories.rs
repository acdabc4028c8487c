use preset_browser::category::{join_parts, Bank, Category};
use preset_browser::category_node::CategoryNode;
use std::collections::HashSet;

fn text(s: &str) -> String {
    String::from(s)
}

fn category(name: &str, sub: &str, subsub: &str) -> Category {
    Category { id: 1, name: text(name), subcategory: text(sub), subsubcategory: text(subsub), presets: HashSet::new() }
}

fn bank(entry1: &str, entry2: &str, entry3: &str) -> Bank {
    Bank { id: 1, entry1: text(entry1), entry2: text(entry2), entry3: text(entry3), presets: HashSet::new() }
}

#[test]
fn category_names_join_their_parts() {
    assert_eq!(category("Synth", "Lead", "Soft").get_name(), "Synth / Lead / Soft");
    assert_eq!(category("Synth", "Lead", "").get_name(), "Synth / Lead");
    assert_eq!(category("Synth", "", "").get_name(), "Synth");
}

#[test]
fn empty_parts_are_left_out() {
    assert_eq!(category("Synth", "", "Soft").get_name(), "Synth / Soft");
    assert_eq!(category("", "Lead", "Soft").get_name(), "Lead / Soft");
    assert_eq!(category("", "", "Soft").get_name(), "Soft");
    assert_eq!(category("", "", "").get_name(), "");
}

#[test]
fn bank_names_join_their_entries() {
    assert_eq!(bank("Factory", "Pads", "Warm").get_name(), "Factory / Pads / Warm");
    assert_eq!(bank("Factory", "", "").get_name(), "Factory");
    assert_eq!(bank("Factory", "", "Warm").get_name(), "Factory / Warm");
    assert_eq!(join_parts(&text("a"), &text("b"), &text("c")), "a / b / c");
}

fn names(node: &CategoryNode) -> Vec<&str> {
    node.children().iter().map(|child| child.name().as_str()).collect()
}

fn path(parts: &[&str]) -> Vec<String> {
    parts.iter().map(|part| text(part)).collect()
}

#[test]
fn a_new_node_is_bare() {
    let node = CategoryNode::new(Some(3), "Synth");
    assert_eq!(node.name(), "Synth");
    assert_eq!(node.id(), Some(3));
    assert!(node.children().is_empty());
    let node = CategoryNode::new(None, text("Root"));
    assert_eq!(node.name(), "Root");
    assert_eq!(node.id(), None);
}

#[test]
fn a_path_grows_a_branch() {
    let mut root = CategoryNode::new(None, "");
    root.append(Some(5), path(&["Synth", "Lead", "Soft"]));
    assert_eq!(names(&root), vec!["Synth"]);
    let synth = &root.children()[0];
    assert_eq!(synth.id(), None);
    let lead = &synth.children()[0];
    assert_eq!(lead.name(), "Lead");
    assert_eq!(lead.id(), None);
    let soft = &lead.children()[0];
    assert_eq!(soft.name(), "Soft");
    assert_eq!(soft.id(), Some(5));
    assert!(soft.children().is_empty());
    assert_eq!(root.id(), None);
}

#[test]
fn the_id_goes_where_the_names_run_out() {
    let mut root = CategoryNode::new(None, "");
    root.append(Some(1), path(&["Synth", "", ""]));
    root.append(Some(2), path(&["Synth", "Lead", ""]));
    root.append(Some(3), path(&["Bass"]));
    assert_eq!(names(&root), vec!["Synth", "Bass"]);
    assert_eq!(root.children()[0].id(), Some(1));
    assert_eq!(root.children()[0].children()[0].id(), Some(2));
    assert!(root.children()[0].children()[0].children().is_empty());
    assert_eq!(root.children()[1].id(), Some(3));
}

#[test]
fn a_node_keeps_the_id_it_has() {
    let mut root = CategoryNode::new(None, "");
    root.append(Some(1), path(&["Synth"]));
    root.append(Some(9), path(&["Synth"]));
    assert_eq!(root.children().len(), 1);
    assert_eq!(root.children()[0].id(), Some(1));
}

#[test]
fn a_node_gets_its_id_later() {
    let mut root = CategoryNode::new(None, "");
    root.append(Some(2), path(&["Synth", "Lead"]));
    assert_eq!(root.children()[0].id(), None);
    root.append(Some(1), path(&["Synth"]));
    assert_eq!(root.children()[0].id(), Some(1));
    assert_eq!(root.children()[0].children()[0].id(), Some(2));
}

#[test]
fn empty_paths_add_nothing() {
    let mut root = CategoryNode::new(Some(0), "root");
    root.append(Some(1), path(&[]));
    root.append(Some(1), path(&["", "Lead"]));
    assert!(root.children().is_empty());
    assert_eq!(root.id(), Some(0));
}

#[test]
fn names_behind_an_empty_one_are_not_reached() {
    let mut root = CategoryNode::new(None, "");
    root.append(Some(4), path(&["Synth", "", "Soft"]));
    assert_eq!(root.children()[0].id(), Some(4));
    assert!(root.children()[0].children().is_empty());
}

#[test]
fn appending_without_id_builds_the_path_only() {
    let mut root = CategoryNode::new(None, "");
    root.append(None, path(&["Synth", "Lead"]));
    assert_eq!(root.children()[0].id(), None);
    assert_eq!(root.children()[0].children()[0].id(), None);
}

#[test]
fn a_node_is_named_by_a_string() {
    let node = CategoryNode::named(Some(8), text("Keys"));
    assert_eq!(node.name(), "Keys");
    assert_eq!(node.id(), Some(8));
    assert!(node.children().is_empty());
}

#[test]
fn no_two_children_share_a_name() {
    let mut root = CategoryNode::named(None, text(""));
    root.append(Some(1), path(&["Synth", "Lead"]));
    root.append(Some(2), path(&["Synth", "Pad"]));
    root.append(Some(3), path(&["Synth", "Lead", "Soft"]));
    root.append(Some(4), path(&["Bass"]));
    root.append(Some(5), path(&["Synth"]));
    assert_eq!(names(&root), vec!["Synth", "Bass"]);
    assert_eq!(names(&root.children()[0]), vec!["Lead", "Pad"]);
    assert_eq!(names(&root.children()[0].children()[0]), vec!["Soft"]);
}

#[test]
fn a_copy_of_a_tree_says_the_same() {
    let mut root = CategoryNode::named(Some(0), text("root"));
    root.append(Some(1), path(&["Synth", "Lead"]));
    root.append(Some(2), path(&["Bass"]));
    let copy = root.clone();
    root.append(Some(3), path(&["Keys"]));
    assert_eq!(copy.name(), "root");
    assert_eq!(copy.id(), Some(0));
    assert_eq!(names(&copy), vec!["Synth", "Bass"]);
    assert_eq!(copy.children()[0].children()[0].name(), "Lead");
    assert_eq!(copy.children()[0].children()[0].id(), Some(1));
    assert_eq!(copy.children()[1].id(), Some(2));
    assert_eq!(names(&root), vec!["Synth", "Bass", "Keys"]);
    let twin = copy.duplicate();
    assert_eq!(names(&twin), vec!["Synth", "Bass"]);
}
